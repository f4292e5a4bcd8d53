//! The Neo4j HTTP transaction protocol: the endpoint, the request body that
//! a Cypher script becomes, the check of a response, and the graph rows that
//! a full read returns. Sending the requests is left to the caller.

use vstd::prelude::*;

use crate::json::{lemma_array_model, lemma_object_model, members_model, values_model, Json, JsonValue};
use crate::text::{chars_of, collect_chars, join, join_strings, push_char, strings_model, to_owned};

verus! {

broadcast use vstd::string::group_string_axioms;

/// The query that reads every node together with its outgoing relationships.
pub const FETCH_ALL_QUERY: &'static str = "MATCH (n) OPTIONAL MATCH (n)-[r]->(m) RETURN n, r, m";

/// What a request to Neo4j can fail with.
#[derive(Debug)]
pub enum Neo4jError {
    /// The HTTP exchange itself failed; the text says why.
    Http(String),
    /// Neo4j answered with errors; their messages, joined by `"; "`.
    Neo4j(String),
    UnexpectedResponse,
}

/// The text that describes an error.
pub open spec fn neo4j_error_message(e: Neo4jError) -> Seq<char> {
    match e {
        Neo4jError::Http(m) => "HTTP request failed: "@ + m@,
        Neo4jError::Neo4j(m) => "Neo4j error: "@ + m@,
        Neo4jError::UnexpectedResponse => "unexpected response format"@,
    }
}

impl Neo4jError {
    /// The text that describes this error.
    pub fn message(&self) -> (r: String)
        ensures
            r@ == neo4j_error_message(*self),
    {
        match self {
            Neo4jError::Http(m) => {
                let mut r = to_owned("HTTP request failed: ");
                r.append(m.as_str());
                r
            },
            Neo4jError::Neo4j(m) => {
                let mut r = to_owned("Neo4j error: ");
                r.append(m.as_str());
                r
            },
            Neo4jError::UnexpectedResponse => to_owned("unexpected response format"),
        }
    }
}

/// The transaction endpoint of the server at `uri`.
pub fn commit_url(uri: &str) -> (r: String)
    ensures
        r@ == uri@ + "/db/neo4j/tx/commit"@,
{
    let mut r = to_owned(uri);
    r.append("/db/neo4j/tx/commit");
    r
}

/// Whether `c` has the Unicode `White_Space` property: the 25 code points
/// U+0009..=U+000D, U+0020, U+0085, U+00A0, U+1680, U+2000..=U+200A, U+2028,
/// U+2029, U+202F, U+205F and U+3000.
pub open spec fn white_space(c: char) -> bool {
    ('\u{9}' <= c && c <= '\u{d}') || c == ' ' || c == '\u{85}' || c == '\u{a0}' || c == '\u{1680}'
        || ('\u{2000}' <= c && c <= '\u{200a}') || c == '\u{2028}' || c == '\u{2029}' || c
        == '\u{202f}' || c == '\u{205f}' || c == '\u{3000}'
}

/// Whether `c` has the Unicode `White_Space` property, as
/// `char::is_whitespace` tells.
pub fn is_whitespace(c: char) -> (r: bool)
    ensures
        r == white_space(c),
{
    ('\u{9}' <= c && c <= '\u{d}') || c == ' ' || c == '\u{85}' || c == '\u{a0}' || c == '\u{1680}'
        || ('\u{2000}' <= c && c <= '\u{200a}') || c == '\u{2028}' || c == '\u{2029}' || c
        == '\u{202f}' || c == '\u{205f}' || c == '\u{3000}'
}

/// `s` without its leading white space.
pub open spec fn trim_start(s: Seq<char>) -> Seq<char>
    decreases s.len(),
{
    if s.len() > 0 && white_space(s[0]) {
        trim_start(s.drop_first())
    } else {
        s
    }
}

/// `s` without its trailing white space.
pub open spec fn trim_end(s: Seq<char>) -> Seq<char>
    decreases s.len(),
{
    if s.len() > 0 && white_space(s.last()) {
        trim_end(s.drop_last())
    } else {
        s
    }
}

/// `str::trim`: `s` without white space at either end.
pub open spec fn trim(s: Seq<char>) -> Seq<char> {
    trim_end(trim_start(s))
}

/// `str::trim`.
pub fn str_trim(s: &str) -> (r: String)
    ensures
        r@ == trim(s@),
{
    let cs = chars_of(s);
    let n = cs.len();
    let mut lo: usize = 0;
    assert(cs@.skip(0) =~= cs@);
    while lo < n && is_whitespace(cs[lo])
        invariant
            lo <= n,
            n == cs.len(),
            cs@ == s@,
            trim_start(s@) == trim_start(cs@.skip(lo as int)),
        decreases n - lo,
    {
        assert(cs@.skip(lo as int).drop_first() =~= cs@.skip(lo + 1));
        lo = lo + 1;
    }
    let ghost rest = cs@.skip(lo as int);
    assert(trim_start(s@) == rest);
    let mut hi: usize = n;
    assert(cs@.subrange(lo as int, n as int) =~= rest);
    while hi > lo && is_whitespace(cs[hi - 1])
        invariant
            lo <= hi <= n,
            n == cs.len(),
            trim_end(rest) == trim_end(cs@.subrange(lo as int, hi as int)),
        decreases hi,
    {
        assert(cs@.subrange(lo as int, hi as int).drop_last() =~= cs@.subrange(lo as int, hi - 1));
        hi = hi - 1;
    }
    collect_chars(&cs, lo, hi)
}

/// Where a scan of Cypher text stands: outside quotes, or inside a `"`, `'`
/// or backtick quote (just after a backslash, for the first two).
#[derive(Clone, Copy, PartialEq, Eq, Structural)]
pub enum Quote {
    Plain,
    Double,
    DoubleEscaped,
    Single,
    SingleEscaped,
    Backtick,
}

/// The scan's state after reading `c` in state `q`.
pub open spec fn quote_step(q: Quote, c: char) -> Quote {
    match q {
        Quote::Plain => if c == '"' {
            Quote::Double
        } else if c == '\'' {
            Quote::Single
        } else if c == '`' {
            Quote::Backtick
        } else {
            Quote::Plain
        },
        Quote::Double => if c == '\\' {
            Quote::DoubleEscaped
        } else if c == '"' {
            Quote::Plain
        } else {
            Quote::Double
        },
        Quote::DoubleEscaped => Quote::Double,
        Quote::Single => if c == '\\' {
            Quote::SingleEscaped
        } else if c == '\'' {
            Quote::Plain
        } else {
            Quote::Single
        },
        Quote::SingleEscaped => Quote::Single,
        Quote::Backtick => if c == '`' {
            Quote::Plain
        } else {
            Quote::Backtick
        },
    }
}

/// The scan's state after reading `s` from state `q`.
pub open spec fn scan_from(q: Quote, s: Seq<char>) -> Quote
    decreases s.len(),
{
    if s.len() == 0 {
        q
    } else {
        quote_step(scan_from(q, s.drop_last()), s.last())
    }
}

fn next_quote(q: Quote, c: char) -> (r: Quote)
    ensures
        r == quote_step(q, c),
{
    match q {
        Quote::Plain => if c == '"' {
            Quote::Double
        } else if c == '\'' {
            Quote::Single
        } else if c == '`' {
            Quote::Backtick
        } else {
            Quote::Plain
        },
        Quote::Double => if c == '\\' {
            Quote::DoubleEscaped
        } else if c == '"' {
            Quote::Plain
        } else {
            Quote::Double
        },
        Quote::DoubleEscaped => Quote::Double,
        Quote::Single => if c == '\\' {
            Quote::SingleEscaped
        } else if c == '\'' {
            Quote::Plain
        } else {
            Quote::Single
        },
        Quote::SingleEscaped => Quote::Single,
        Quote::Backtick => if c == '`' {
            Quote::Plain
        } else {
            Quote::Backtick
        },
    }
}

/// The pieces of a Cypher script between the `;` that end statements: a
/// `;` inside a string or a quoted name does not end one. There is one more
/// piece than there are such `;`.
pub open spec fn split_pieces(s: Seq<char>, c: char) -> Seq<Seq<char>>
    decreases s.len(),
{
    if s.len() == 0 {
        seq![Seq::empty()]
    } else {
        let p = split_pieces(s.drop_last(), c);
        if s.last() == c && scan_from(Quote::Plain, s.drop_last()) == Quote::Plain {
            p.push(Seq::empty())
        } else {
            p.update(p.len() - 1, p.last().push(s.last()))
        }
    }
}

/// The trimmed pieces that are not empty, in order.
pub open spec fn nonblank_trimmed(pieces: Seq<Seq<char>>) -> Seq<Seq<char>>
    decreases pieces.len(),
{
    if pieces.len() == 0 {
        Seq::empty()
    } else {
        let rest = nonblank_trimmed(pieces.drop_last());
        let t = trim(pieces.last());
        if t.len() == 0 {
            rest
        } else {
            rest.push(t)
        }
    }
}

/// The statements of a Cypher script: its parts between statement-ending
/// `;`, trimmed, without the empty ones.
pub open spec fn statements_of(cypher: Seq<char>) -> Seq<Seq<char>> {
    nonblank_trimmed(split_pieces(cypher, ';'))
}

/// The statements of a Cypher script, in order.
pub fn split_statements(cypher: &str) -> (r: Vec<String>)
    ensures
        strings_model(r@) == statements_of(cypher@),
{
    let cs = chars_of(cypher);
    let mut pieces: Vec<String> = Vec::new();
    let mut cur = String::new();
    assert(cs@.take(0) =~= Seq::<char>::empty());
    assert(strings_model(pieces@).push(cur@) =~= split_pieces(cs@.take(0), ';'));
    let mut q = Quote::Plain;
    for i in 0..cs.len()
        invariant
            cs@ == cypher@,
            strings_model(pieces@).push(cur@) == split_pieces(cs@.take(i as int), ';'),
            q == scan_from(Quote::Plain, cs@.take(i as int)),
    {
        assert(cs@.take(i + 1).drop_last() =~= cs@.take(i as int));
        let ghost before = strings_model(pieces@).push(cur@);
        let at_end = match q {
            Quote::Plain => true,
            _ => false,
        };
        q = next_quote(q, cs[i]);
        if cs[i] == ';' && at_end {
            let done = cur;
            pieces.push(done);
            cur = String::new();
            assert(strings_model(pieces@).push(cur@) =~= before.push(Seq::empty()));
        } else {
            push_char(&mut cur, cs[i]);
            assert(strings_model(pieces@).push(cur@) =~= before.update(
                before.len() - 1,
                before.last().push(cs@[i as int]),
            ));
        }
    }
    assert(cs@.take(cs.len() as int) =~= cs@);
    pieces.push(cur);
    let ghost all = strings_model(pieces@);
    assert(all == split_pieces(cypher@, ';'));
    let mut out: Vec<String> = Vec::new();
    for i in 0..pieces.len()
        invariant
            all == strings_model(pieces@),
            strings_model(out@) == nonblank_trimmed(all.take(i as int)),
    {
        assert(all.take(i + 1).drop_last() =~= all.take(i as int));
        let t = str_trim(pieces[i].as_str());
        if t.as_str().unicode_len() > 0 {
            let ghost before = strings_model(out@);
            out.push(t);
            assert(strings_model(out@) =~= before.push(t@));
        } else {
            assert(t@.len() == 0);
        }
    }
    assert(all.take(pieces.len() as int) =~= all);
    out
}

/// Whether the script holds nothing but white space.
pub fn is_blank(cypher: &str) -> (r: bool)
    ensures
        r == (trim(cypher@).len() == 0),
{
    let t = str_trim(cypher);
    t.as_str().unicode_len() == 0
}

/// `{ "results": [], "summary": {} }`.
pub open spec fn empty_result_model() -> Json {
    Json::Object(
        seq![("results"@, Json::Array(Seq::empty())), ("summary"@, Json::Object(Seq::empty()))],
    )
}

/// What a blank script is answered with, without asking the server.
pub fn empty_result() -> (r: JsonValue)
    ensures
        r@ == empty_result_model(),
{
    let results: Vec<JsonValue> = Vec::new();
    proof {
        lemma_array_model(results);
    }
    assert(values_model(results@) =~= Seq::<Json>::empty());
    let mut members: Vec<(String, JsonValue)> = Vec::new();
    members.push((to_owned("results"), JsonValue::Array(results)));
    members.push((to_owned("summary"), JsonValue::new_object()));
    proof {
        lemma_object_model(members);
    }
    assert(members_model(members@) =~= seq![
        ("results"@, Json::Array(Seq::empty())),
        ("summary"@, Json::Object(Seq::empty())),
    ]);
    JsonValue::Object(members)
}

/// `{ "statement": s }`.
pub open spec fn statement_object(s: Seq<char>) -> Json {
    Json::Object(seq![("statement"@, Json::Str(s))])
}

/// `{ "statements": [{ "statement": .. }, ..] }`, one entry per statement of
/// the script.
pub open spec fn request_body_model(cypher: Seq<char>) -> Json {
    let st = statements_of(cypher);
    Json::Object(
        seq![("statements"@, Json::Array(Seq::new(st.len(), |i: int| statement_object(st[i]))))],
    )
}

/// The body of the transaction request that runs the script.
pub fn request_body(cypher: &str) -> (r: JsonValue)
    ensures
        r@ == request_body_model(cypher@),
{
    let statements = split_statements(cypher);
    let ghost st = strings_model(statements@);
    let mut items: Vec<JsonValue> = Vec::new();
    for i in 0..statements.len()
        invariant
            st == strings_model(statements@),
            values_model(items@) =~= Seq::new(i as nat, |j: int| statement_object(st[j])),
    {
        let ghost before = values_model(items@);
        let mut members: Vec<(String, JsonValue)> = Vec::new();
        members.push((to_owned("statement"), JsonValue::String(to_owned(statements[i].as_str()))));
        proof {
            lemma_object_model(members);
        }
        assert(members_model(members@) =~= seq![("statement"@, Json::Str(st[i as int]))]);
        items.push(JsonValue::Object(members));
        assert(values_model(items@) =~= before.push(statement_object(st[i as int])));
    }
    proof {
        lemma_array_model(items);
    }
    let mut members: Vec<(String, JsonValue)> = Vec::new();
    let ghost arr = Json::Array(values_model(items@));
    members.push((to_owned("statements"), JsonValue::Array(items)));
    proof {
        lemma_object_model(members);
    }
    assert(members_model(members@) =~= seq![("statements"@, arr)]);
    JsonValue::Object(members)
}

/// A statement without the `;` that ends it.
pub open spec fn without_statement_end(s: Seq<char>) -> Seq<char> {
    if s.len() > 0 && s.last() == ';' {
        s.drop_last()
    } else {
        s
    }
}

/// `{ "statements": [{ "statement": .. }, ..] }`, one entry per given
/// statement, each without its ending `;`.
pub open spec fn statements_body_model(blocks: Seq<Seq<char>>) -> Json {
    Json::Object(
        seq![("statements"@, Json::Array(Seq::new(blocks.len(), |i: int| statement_object(without_statement_end(blocks[i])))))],
    )
}

fn strip_statement_end(s: &str) -> (r: String)
    ensures
        r@ == without_statement_end(s@),
{
    let cs = chars_of(s);
    if cs.len() > 0 && cs[cs.len() - 1] == ';' {
        let r = collect_chars(&cs, 0, cs.len() - 1);
        assert(r@ =~= s@.drop_last());
        r
    } else {
        to_owned(s)
    }
}

/// The body of the transaction request that runs the given statements, one
/// request statement per given statement, without its ending `;`: the way
/// to send the statements that `CypherAdapter::statements` gives.
pub fn statements_body(blocks: &Vec<String>) -> (r: JsonValue)
    ensures
        r@ == statements_body_model(strings_model(blocks@)),
{
    let ghost st = strings_model(blocks@);
    let mut items: Vec<JsonValue> = Vec::new();
    for i in 0..blocks.len()
        invariant
            st == strings_model(blocks@),
            values_model(items@) =~= Seq::new(i as nat, |j: int| statement_object(without_statement_end(st[j]))),
    {
        let ghost before = values_model(items@);
        let text = strip_statement_end(blocks[i].as_str());
        let ghost tv = text@;
        let mut members: Vec<(String, JsonValue)> = Vec::new();
        members.push((to_owned("statement"), JsonValue::String(text)));
        proof {
            lemma_object_model(members);
        }
        assert(members_model(members@) =~= seq![("statement"@, Json::Str(tv))]);
        items.push(JsonValue::Object(members));
        assert(values_model(items@) =~= before.push(statement_object(without_statement_end(st[i as int]))));
    }
    proof {
        lemma_array_model(items);
    }
    let mut members: Vec<(String, JsonValue)> = Vec::new();
    let ghost arr = Json::Array(values_model(items@));
    members.push((to_owned("statements"), JsonValue::Array(items)));
    proof {
        lemma_object_model(members);
    }
    assert(members_model(members@) =~= seq![("statements"@, arr)]);
    JsonValue::Object(members)
}

/// The errors that a response reports, when it reports any.
pub open spec fn response_errors(result: Json) -> Option<Seq<Json>> {
    match result.get("errors"@) {
        Some(Json::Array(errs)) => if errs.len() > 0 {
            Some(errs)
        } else {
            None
        },
        _ => None,
    }
}

/// The `message` texts of the errors that carry one, in order.
pub open spec fn error_messages(errs: Seq<Json>) -> Seq<Seq<char>>
    decreases errs.len(),
{
    if errs.len() == 0 {
        Seq::empty()
    } else {
        let rest = error_messages(errs.drop_last());
        match errs.last().get_str("message"@) {
            Some(m) => rest.push(m),
            None => rest,
        }
    }
}

/// Turn a response into the caller's result: an error that joins the
/// messages of the reported errors, or the response itself.
pub fn check_response(result: JsonValue) -> (r: Result<JsonValue, Neo4jError>)
    ensures
        match response_errors(result@) {
            Some(errs) => r matches Err(Neo4jError::Neo4j(m)) && m@ == join(
                error_messages(errs),
                "; "@,
            ),
            None => r matches Ok(v) && v@ == result@,
        },
{
    let mut messages: Vec<String> = Vec::new();
    let mut failed = false;
    match result.get("errors") {
        Some(e) => match e.as_array() {
            Some(errs) => {
                let ghost em = values_model(errs@);
                for i in 0..errs.len()
                    invariant
                        em == values_model(errs@),
                        strings_model(messages@) == error_messages(em.take(i as int)),
                {
                    assert(em.take(i + 1).drop_last() =~= em.take(i as int));
                    match errs[i].get_str("message") {
                        Some(m) => {
                            let ghost before = strings_model(messages@);
                            messages.push(to_owned(m));
                            assert(strings_model(messages@) =~= before.push(m@));
                        },
                        None => {},
                    }
                }
                assert(em.take(errs.len() as int) =~= em);
                failed = errs.len() > 0;
            },
            None => {},
        },
        None => {},
    }
    if failed {
        Err(Neo4jError::Neo4j(join_strings(&messages, "; ")))
    } else {
        Ok(result)
    }
}

/// The element at `k` of a row, or null past its end.
pub open spec fn row_item(row: Seq<Json>, k: int) -> Json {
    if 0 <= k < row.len() {
        row[k]
    } else {
        Json::Null
    }
}

/// `{ "source": .., "relationship": .., "target": .. }`.
pub open spec fn graph_row(source: Json, relationship: Json, target: Json) -> Json {
    Json::Object(
        seq![("source"@, source), ("relationship"@, relationship), ("target"@, target)],
    )
}

/// The graph row of one data entry: none where the entry has no `row`
/// array or its source is null.
pub open spec fn entry_rows(entry: Json) -> Seq<Json> {
    match entry.get("row"@) {
        Some(Json::Array(row)) => if row_item(row, 0) is Null {
            Seq::empty()
        } else {
            seq![graph_row(row_item(row, 0), row_item(row, 1), row_item(row, 2))]
        },
        _ => Seq::empty(),
    }
}

/// The graph rows of a sequence of data entries.
pub open spec fn entries_rows(entries: Seq<Json>) -> Seq<Json>
    decreases entries.len(),
{
    if entries.len() == 0 {
        Seq::empty()
    } else {
        entries_rows(entries.drop_last()) + entry_rows(entries.last())
    }
}

/// The graph rows of one statement result: those of its `data` array.
pub open spec fn result_rows(result: Json) -> Seq<Json> {
    match result.get("data"@) {
        Some(Json::Array(entries)) => entries_rows(entries),
        _ => Seq::empty(),
    }
}

/// The graph rows of a sequence of statement results.
pub open spec fn results_rows(results: Seq<Json>) -> Seq<Json>
    decreases results.len(),
{
    if results.len() == 0 {
        Seq::empty()
    } else {
        results_rows(results.drop_last()) + result_rows(results.last())
    }
}

/// The graph rows of a response to [`FETCH_ALL_QUERY`].
pub open spec fn graph_rows_model(response: Json) -> Seq<Json> {
    match response.get("results"@) {
        Some(Json::Array(results)) => results_rows(results),
        _ => Seq::empty(),
    }
}

fn item_or_null(row: &Vec<JsonValue>, k: usize) -> (r: JsonValue)
    ensures
        r@ == row_item(values_model(row@), k as int),
{
    if k < row.len() {
        row[k].deep_copy()
    } else {
        JsonValue::Null
    }
}

fn push_entry_rows(entry: &JsonValue, out: &mut Vec<JsonValue>)
    ensures
        values_model(final(out)@) == values_model(old(out)@) + entry_rows(entry@),
{
    let ghost start = values_model(out@);
    match entry.get("row") {
        Some(r) => match r.as_array() {
            Some(row) => {
                let ghost rm = values_model(row@);
                let source = item_or_null(row, 0);
                if !source.is_null() {
                    let relationship = item_or_null(row, 1);
                    let target = item_or_null(row, 2);
                    let ghost g = graph_row(source@, relationship@, target@);
                    let mut members: Vec<(String, JsonValue)> = Vec::new();
                    members.push((to_owned("source"), source));
                    members.push((to_owned("relationship"), relationship));
                    members.push((to_owned("target"), target));
                    proof {
                        lemma_object_model(members);
                    }
                    assert(members_model(members@) =~= g->Object_0);
                    out.push(JsonValue::Object(members));
                    assert(values_model(out@) =~= start + seq![g]);
                } else {
                    assert(values_model(out@) =~= start + Seq::<Json>::empty());
                }
            },
            None => {
                assert(values_model(out@) =~= start + Seq::<Json>::empty());
            },
        },
        None => {
            assert(values_model(out@) =~= start + Seq::<Json>::empty());
        },
    }
}

fn push_result_rows(result: &JsonValue, out: &mut Vec<JsonValue>)
    ensures
        values_model(final(out)@) == values_model(old(out)@) + result_rows(result@),
{
    let ghost start = values_model(out@);
    match result.get("data") {
        Some(d) => match d.as_array() {
            Some(entries) => {
                let ghost em = values_model(entries@);
                assert(start + entries_rows(em.take(0)) =~= start);
                for i in 0..entries.len()
                    invariant
                        em == values_model(entries@),
                        values_model(out@) == start + entries_rows(em.take(i as int)),
                {
                    assert(em.take(i + 1).drop_last() =~= em.take(i as int));
                    push_entry_rows(&entries[i], out);
                    assert(start + entries_rows(em.take(i + 1)) =~= start + entries_rows(
                        em.take(i as int),
                    ) + entry_rows(em[i as int]));
                }
                assert(em.take(entries.len() as int) =~= em);
            },
            None => {
                assert(values_model(out@) =~= start + Seq::<Json>::empty());
            },
        },
        None => {
            assert(values_model(out@) =~= start + Seq::<Json>::empty());
        },
    }
}

/// The graph rows of a response to [`FETCH_ALL_QUERY`]: one per data row
/// whose source node is not null, holding its source, relationship and
/// target (null where the row is shorter).
pub fn graph_rows(response: &JsonValue) -> (r: Vec<JsonValue>)
    ensures
        values_model(r@) == graph_rows_model(response@),
{
    let mut out: Vec<JsonValue> = Vec::new();
    assert(values_model(out@) =~= Seq::<Json>::empty());
    match response.get("results") {
        Some(d) => match d.as_array() {
            Some(results) => {
                let ghost rm = values_model(results@);
                assert(results_rows(rm.take(0)) =~= Seq::<Json>::empty());
                for i in 0..results.len()
                    invariant
                        rm == values_model(results@),
                        values_model(out@) == results_rows(rm.take(i as int)),
                {
                    assert(rm.take(i + 1).drop_last() =~= rm.take(i as int));
                    push_result_rows(&results[i], &mut out);
                }
                assert(rm.take(results.len() as int) =~= rm);
            },
            None => {},
        },
        None => {},
    }
    out
}

// ---------------------------------------------------------------------------
// Laws
// ---------------------------------------------------------------------------

proof fn lemma_trim_start_shape(s: Seq<char>)
    ensures
        trim_start(s).len() > 0 ==> !white_space(trim_start(s)[0]),
        trim_start(s).len() <= s.len(),
    decreases s.len(),
{
    if s.len() > 0 && white_space(s[0]) {
        lemma_trim_start_shape(s.drop_first());
    }
}

proof fn lemma_trim_end_shape(s: Seq<char>)
    ensures
        trim_end(s) == s.take(trim_end(s).len() as int),
        trim_end(s).len() <= s.len(),
        trim_end(s).len() > 0 ==> !white_space(trim_end(s).last()),
    decreases s.len(),
{
    if s.len() > 0 && white_space(s.last()) {
        lemma_trim_end_shape(s.drop_last());
        assert(s.drop_last().take(trim_end(s).len() as int) =~= s.take(trim_end(s).len() as int));
    } else {
        assert(s.take(s.len() as int) =~= s);
    }
}

/// Trimming twice is trimming once.
proof fn lemma_trim_idempotent(s: Seq<char>)
    ensures
        trim(trim(s)) == trim(s),
{
    let a = trim_start(s);
    let t = trim_end(a);
    lemma_trim_start_shape(s);
    lemma_trim_end_shape(a);
    if t.len() > 0 {
        assert(t[0] == a[0]);
        assert(trim_start(t) == t);
        assert(trim_end(t) == t);
    } else {
        assert(trim_start(t) == t);
    }
}

proof fn lemma_nonblank_trimmed(pieces: Seq<Seq<char>>)
    ensures
        forall|i: int|
            0 <= i < nonblank_trimmed(pieces).len() ==> (#[trigger] nonblank_trimmed(pieces)[i]).len() > 0
                && trim(nonblank_trimmed(pieces)[i]) == nonblank_trimmed(pieces)[i],
    decreases pieces.len(),
{
    if pieces.len() > 0 {
        let rest = nonblank_trimmed(pieces.drop_last());
        lemma_nonblank_trimmed(pieces.drop_last());
        lemma_trim_idempotent(pieces.last());
        let t = trim(pieces.last());
        if t.len() > 0 {
            assert forall|i: int| 0 <= i < rest.push(t).len() implies (#[trigger] rest.push(t)[i]).len()
                > 0 && trim(rest.push(t)[i]) == rest.push(t)[i] by {
                if i < rest.len() {
                    assert(rest.push(t)[i] == rest[i]);
                }
            }
        }
    }
}

/// Every statement that a script is split into is non-empty and has no
/// white space at either end.
pub proof fn law_statements_are_trimmed(cypher: Seq<char>)
    ensures
        forall|i: int|
            0 <= i < statements_of(cypher).len() ==> (#[trigger] statements_of(cypher)[i]).len() > 0
                && trim(statements_of(cypher)[i]) == statements_of(cypher)[i],
{
    lemma_nonblank_trimmed(split_pieces(cypher, ';'));
}

/// Each graph row carries a source that is not null.
pub open spec fn has_source(row: Json) -> bool {
    row.get("source"@) matches Some(s) && !(s is Null)
}

proof fn lemma_entries_rows_have_sources(entries: Seq<Json>)
    ensures
        forall|i: int| 0 <= i < entries_rows(entries).len() ==> has_source(#[trigger] entries_rows(entries)[i]),
    decreases entries.len(),
{
    if entries.len() > 0 {
        lemma_entries_rows_have_sources(entries.drop_last());
        let a = entries_rows(entries.drop_last());
        let b = entry_rows(entries.last());
        assert forall|i: int| 0 <= i < b.len() implies has_source(#[trigger] b[i]) by {
            reveal_strlit("source");
        }
        assert forall|i: int| 0 <= i < (a + b).len() implies has_source(#[trigger] (a + b)[i]) by {
            if i >= a.len() {
                assert((a + b)[i] == b[i - a.len()]);
            }
        }
    }
}

proof fn lemma_results_rows_have_sources(results: Seq<Json>)
    ensures
        forall|i: int| 0 <= i < results_rows(results).len() ==> has_source(#[trigger] results_rows(results)[i]),
    decreases results.len(),
{
    if results.len() > 0 {
        lemma_results_rows_have_sources(results.drop_last());
        let a = results_rows(results.drop_last());
        let b = result_rows(results.last());
        if let Some(Json::Array(entries)) = results.last().get("data"@) {
            lemma_entries_rows_have_sources(entries);
        }
        assert forall|i: int| 0 <= i < (a + b).len() implies has_source(#[trigger] (a + b)[i]) by {
            if i >= a.len() {
                assert((a + b)[i] == b[i - a.len()]);
            }
        }
    }
}

/// Every row that a full read returns has a source node that is not null.
pub proof fn law_graph_rows_have_sources(response: Json)
    ensures
        forall|i: int|
            0 <= i < graph_rows_model(response).len() ==> has_source(#[trigger] graph_rows_model(response)[i]),
{
    if let Some(Json::Array(results)) = response.get("results"@) {
        lemma_results_rows_have_sources(results);
    }
}

pub proof fn lemma_split_pieces_len(s: Seq<char>, c: char)
    ensures
        split_pieces(s, c).len() >= 1,
    decreases s.len(),
{
    if s.len() > 0 {
        lemma_split_pieces_len(s.drop_last(), c);
    }
}

/// Text without `c` extends the last piece.
proof fn lemma_split_pieces_extend(x: Seq<char>, t: Seq<char>, c: char)
    requires
        !t.contains(c),
    ensures
        split_pieces(x + t, c) == split_pieces(x, c).update(
            split_pieces(x, c).len() - 1,
            split_pieces(x, c).last() + t,
        ),
    decreases t.len(),
{
    lemma_split_pieces_len(x, c);
    let p = split_pieces(x, c);
    if t.len() == 0 {
        assert(x + t =~= x);
        assert(p.last() + t =~= p.last());
        assert(p.update(p.len() - 1, p.last()) =~= p);
    } else {
        let u = t.drop_last();
        assert(!u.contains(c)) by {
            if u.contains(c) {
                let k = choose|k: int| 0 <= k < u.len() && u[k] == c;
                assert(t[k] == c);
            }
        }
        lemma_split_pieces_extend(x, u, c);
        assert((x + t).drop_last() =~= x + u);
        assert((x + t).last() == t.last());
        assert(t.last() != c) by {
            assert(t[t.len() - 1] == t.last());
        }
        let q = split_pieces(x + u, c);
        assert(q.len() == p.len());
        assert(q.last() == p.last() + u);
        assert(t =~= u.push(t.last()));
        assert(q.last().push(t.last()) =~= p.last() + t);
        assert(q.update(q.len() - 1, q.last().push(t.last())) =~= p.update(p.len() - 1, p.last() + t));
    }
}

/// Scanning two texts one after the other.
pub proof fn lemma_scan_concat(q: Quote, x: Seq<char>, y: Seq<char>)
    ensures
        scan_from(q, x + y) == scan_from(scan_from(q, x), y),
    decreases y.len(),
{
    if y.len() == 0 {
        assert(x + y =~= x);
    } else {
        lemma_scan_concat(q, x, y.drop_last());
        assert((x + y).drop_last() =~= x + y.drop_last());
        assert((x + y).last() == y.last());
    }
}

/// Statements joined by `;` come apart into the same statements.
proof fn lemma_split_joined(stmts: Seq<Seq<char>>)
    requires
        stmts.len() > 0,
        forall|i: int| 0 <= i < stmts.len() ==> !(#[trigger] stmts[i]).contains(';'),
        forall|i: int| 0 <= i < stmts.len() ==> scan_from(Quote::Plain, #[trigger] stmts[i]) == Quote::Plain,
    ensures
        split_pieces(join(stmts, ";"@), ';') == stmts,
        scan_from(Quote::Plain, join(stmts, ";"@)) == Quote::Plain,
    decreases stmts.len(),
{
    reveal_strlit(";");
    if stmts.len() == 1 {
        lemma_split_pieces_extend(Seq::empty(), stmts[0], ';');
        assert(Seq::<char>::empty() + stmts[0] =~= stmts[0]);
        assert(split_pieces(Seq::<char>::empty(), ';') =~= seq![Seq::<char>::empty()]);
        assert(Seq::<char>::empty() + stmts[0] =~= stmts[0]);
        assert(seq![Seq::<char>::empty()].update(0, stmts[0]) =~= stmts);
    } else {
        let front = stmts.drop_last();
        assert forall|i: int| 0 <= i < front.len() implies !(#[trigger] front[i]).contains(';') by {
            assert(front[i] == stmts[i]);
        }
        assert forall|i: int| 0 <= i < front.len() implies scan_from(Quote::Plain, #[trigger] front[i])
            == Quote::Plain by {
            assert(front[i] == stmts[i]);
        }
        lemma_split_joined(front);
        let j = join(front, ";"@);
        let last = stmts.last();
        assert(!last.contains(';')) by {
            assert(stmts[stmts.len() - 1] == last);
        }
        assert(join(stmts, ";"@) =~= j.push(';') + last);
        lemma_split_pieces_extend(j.push(';'), last, ';');
        assert(j.push(';').drop_last() =~= j);
        let p = split_pieces(j.push(';'), ';');
        assert(p == front.push(Seq::empty()));
        assert(Seq::<char>::empty() + last =~= last);
        assert(p.update(p.len() - 1, p.last() + last) =~= stmts);
        lemma_scan_concat(Quote::Plain, j.push(';'), last);
        assert(scan_from(Quote::Plain, last) == Quote::Plain) by {
            assert(stmts[stmts.len() - 1] == last);
        }
    }
}

proof fn lemma_nonblank_trimmed_of_clean(stmts: Seq<Seq<char>>)
    requires
        forall|i: int| 0 <= i < stmts.len() ==> (#[trigger] stmts[i]).len() > 0 && trim(stmts[i]) == stmts[i],
    ensures
        nonblank_trimmed(stmts) == stmts,
    decreases stmts.len(),
{
    if stmts.len() > 0 {
        let front = stmts.drop_last();
        assert forall|i: int| 0 <= i < front.len() implies (#[trigger] front[i]).len() > 0 && trim(front[i]) == front[i] by {
            assert(front[i] == stmts[i]);
        }
        lemma_nonblank_trimmed_of_clean(front);
        assert(stmts[stmts.len() - 1] == stmts.last());
        assert(front.push(stmts.last()) =~= stmts);
    }
}

/// Statements joined by `;` split back into the same statements, when each
/// is non-empty, has no white space at either end, holds no `;` and closes
/// every quote it opens.
pub proof fn law_joined_statements_split_back(stmts: Seq<Seq<char>>)
    requires
        forall|i: int|
            0 <= i < stmts.len() ==> (#[trigger] stmts[i]).len() > 0 && trim(stmts[i]) == stmts[i]
                && !stmts[i].contains(';') && scan_from(Quote::Plain, stmts[i]) == Quote::Plain,
    ensures
        statements_of(join(stmts, ";"@)) == stmts,
{
    if stmts.len() == 0 {
        let e = Seq::<char>::empty();
        assert(join(stmts, ";"@) == e);
        assert(split_pieces(e, ';') =~= seq![e]);
        assert(trim_start(e) == e);
        assert(trim_end(e) == e);
        assert(seq![e].drop_last() =~= Seq::<Seq<char>>::empty());
        assert(nonblank_trimmed(seq![e].drop_last()) == Seq::<Seq<char>>::empty());
        assert(nonblank_trimmed(seq![e]) == Seq::<Seq<char>>::empty());
        assert(stmts =~= Seq::<Seq<char>>::empty());
    } else {
        lemma_split_joined(stmts);
        lemma_nonblank_trimmed_of_clean(stmts);
    }
}

} // verus!
