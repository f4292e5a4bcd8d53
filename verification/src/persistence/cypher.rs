//! Turning an extraction payload into Cypher statements.

use vstd::prelude::*;

use crate::assoc::{pairs_model, StrMap};
use crate::json::{lemma_array_model, lemma_object_model, members_model, values_model, Json, JsonValue};
use crate::ontology::model::{Ontology, OntologyModel};
use crate::text::{
    char_is_ascii_digit, char_is_ident, chars_of, escape_with, eq_ignore_ascii_case, is_ascii_alpha,
    is_ascii_digit, is_ident_char, join, join_strings, push_char, push_escaped, rules_model, str_eq,
    str_eq_ignore_ascii_case, strings_model, to_owned,
};

verus! {

// ---------------------------------------------------------------------------
// Identifiers, keys and literals
// ---------------------------------------------------------------------------

pub open spec fn sanitize_char(c: char) -> char {
    if is_ident_char(c) {
        c
    } else {
        '_'
    }
}

/// `s` as a Cypher identifier: every character that is not an ASCII letter,
/// digit or `_` becomes `_`, and a `_` is put in front when the result is
/// empty or starts with a digit.
pub open spec fn sanitized_identifier(s: Seq<char>) -> Seq<char> {
    let t = s.map_values(|c: char| sanitize_char(c));
    if t.len() == 0 || is_ascii_digit(t[0]) {
        seq!['_'] + t
    } else {
        t
    }
}

impl CypherAdapter {
    /// Sanitize a string to be a valid Cypher identifier (label or relationship type).
    pub fn sanitize_identifier(s: &str) -> (r: String)
        ensures
            r@ == sanitized_identifier(s@),
    {
        let cs = chars_of(s);
        let ghost t = s@.map_values(|c: char| sanitize_char(c));
        let mut body = String::new();
        for i in 0..cs.len()
            invariant
                cs@ == s@,
                t == s@.map_values(|c: char| sanitize_char(c)),
                body@ == t.take(i as int),
        {
            let c = cs[i];
            if char_is_ident(c) {
                push_char(&mut body, c);
            } else {
                push_char(&mut body, '_');
            }
            assert(body@ =~= t.take(i + 1));
        }
        assert(t.take(cs.len() as int) =~= t);
        let starts_with_digit = cs.len() > 0 && char_is_ascii_digit(if char_is_ident(cs[0]) {
            cs[0]
        } else {
            '_'
        });
        if cs.len() == 0 || starts_with_digit {
            let mut r = String::new();
            push_char(&mut r, '_');
            r.append(body.as_str());
            assert(r@ =~= seq!['_'] + t);
            r
        } else {
            body
        }
    }
}

/// `k` may stand bare as a key of a Cypher map literal.
pub open spec fn is_valid_identifier(k: Seq<char>) -> bool {
    &&& k.len() > 0
    &&& (is_ascii_alpha(k[0]) || k[0] == '_')
    &&& forall|i: int| 0 <= i < k.len() ==> is_ident_char(#[trigger] k[i])
}

pub open spec fn backtick_rules() -> Seq<(char, Seq<char>)> {
    seq![('`', "``"@)]
}

/// A property key as it stands in a Cypher map literal: bare when it is a
/// valid identifier, else between backticks with inner backticks doubled.
pub open spec fn cypher_key_text(k: Seq<char>) -> Seq<char> {
    if is_valid_identifier(k) {
        k
    } else {
        seq!['`'] + escape_with(k, backtick_rules()) + seq!['`']
    }
}

impl CypherAdapter {
    /// Format a property key for use in Cypher map literals.
    pub fn cypher_key(key: &str) -> (r: String)
        ensures
            r@ == cypher_key_text(key@),
    {
        let cs = chars_of(key);
        let mut valid = cs.len() > 0 && (('a' <= cs[0] && cs[0] <= 'z') || ('A' <= cs[0] && cs[0] <= 'Z')
            || cs[0] == '_');
        let mut i: usize = 0;
        while valid && i < cs.len()
            invariant
                cs@ == key@,
                i <= cs.len(),
                valid ==> cs.len() > 0 && (is_ascii_alpha(cs@[0]) || cs@[0] == '_'),
                valid ==> forall|j: int| 0 <= j < i ==> is_ident_char(#[trigger] cs@[j]),
                !valid ==> !is_valid_identifier(key@),
            ensures
                valid ==> i == cs.len(),
                valid ==> forall|j: int| 0 <= j < i ==> is_ident_char(#[trigger] cs@[j]),
                valid ==> cs.len() > 0 && (is_ascii_alpha(cs@[0]) || cs@[0] == '_'),
                !valid ==> !is_valid_identifier(key@),
            decreases cs.len() - i,
        {
            if !char_is_ident(cs[i]) {
                valid = false;
                break;
            }
            i = i + 1;
        }
        if valid {
            to_owned(key)
        } else {
            let mut r = String::new();
            push_char(&mut r, '`');
            let rules: [(char, &str); 1] = [('`', "``")];
            push_escaped(&mut r, key, &rules);
            push_char(&mut r, '`');
            assert(rules_model(rules@) =~= backtick_rules());
            r
        }
    }
}

pub open spec fn string_rules() -> Seq<(char, Seq<char>)> {
    seq![('\\', "\\\\"@), ('"', "\\\""@), ('\n', "\\n"@), ('\r', "\\r"@), ('\t', "\\t"@)]
}

/// A JSON value as a Cypher literal.
pub open spec fn cypher_value(v: Json) -> Seq<char>
    decreases v, 1int,
{
    match v {
        Json::Str(s) => seq!['"'] + escape_with(s, string_rules()) + seq!['"'],
        Json::Number(n) => n,
        Json::Bool(b) => if b {
            "true"@
        } else {
            "false"@
        },
        Json::Null => "null"@,
        Json::Array(items) => seq!['['] + cypher_list(items) + seq![']'],
        Json::Object(members) => seq!['{'] + cypher_members(members) + seq!['}'],
    }
}

/// The Cypher literals of `items`, separated by `, `.
pub open spec fn cypher_list(items: Seq<Json>) -> Seq<char>
    decreases items, 0int,
{
    if items.len() == 0 {
        Seq::empty()
    } else if items.len() == 1 {
        cypher_value(items[0])
    } else {
        cypher_list(items.drop_last()) + ", "@ + cypher_value(items.last())
    }
}

/// One member of a Cypher map literal.
pub open spec fn cypher_member(key: Seq<char>, value_text: Seq<char>) -> Seq<char> {
    cypher_key_text(key) + ": "@ + value_text
}

/// The members of a Cypher map literal, separated by `, `.
pub open spec fn cypher_members(members: Seq<(Seq<char>, Json)>) -> Seq<char>
    decreases members, 0int,
{
    if members.len() == 0 {
        Seq::empty()
    } else if members.len() == 1 {
        cypher_member(members[0].0, cypher_value(members[0].1))
    } else {
        cypher_members(members.drop_last()) + ", "@ + cypher_member(
            members.last().0,
            cypher_value(members.last().1),
        )
    }
}

fn write_value(out: &mut String, v: &JsonValue)
    ensures
        final(out)@ == old(out)@ + cypher_value(v@),
    decreases v@,
{
    let ghost start = out@;
    match v {
        JsonValue::String(s) => {
            push_char(out, '"');
            let rules: [(char, &str); 5] = [
                ('\\', "\\\\"),
                ('"', "\\\""),
                ('\n', "\\n"),
                ('\r', "\\r"),
                ('\t', "\\t"),
            ];
            push_escaped(out, s.as_str(), &rules);
            push_char(out, '"');
            assert(rules_model(rules@) =~= string_rules());
            assert(out@ =~= start + cypher_value(v@));
        },
        JsonValue::Number(n) => {
            out.append(n.as_str());
        },
        JsonValue::Bool(b) => {
            if *b {
                out.append("true");
            } else {
                out.append("false");
            }
        },
        JsonValue::Null => {
            out.append("null");
        },
        JsonValue::Array(items) => {
            let ghost va = values_model(items@);
            proof {
                lemma_array_model(*items);
            }
            push_char(out, '[');
            for i in 0..items.len()
                invariant
                    va == values_model(items@),
                    v@ == Json::Array(va),
                    out@ == start + seq!['['] + cypher_list(va.take(i as int)),
            {
                assert(va.take(i + 1).drop_last() =~= va.take(i as int));
                if i > 0 {
                    out.append(", ");
                }
                proof {
                    assert(decreases_to!(v@ => v@->Array_0));
                    assert(decreases_to!(va => va[i as int]));
                }
                write_value(out, &items[i]);
                assert(out@ =~= start + seq!['['] + cypher_list(va.take(i + 1)));
            }
            assert(va.take(items.len() as int) =~= va);
            push_char(out, ']');
        },
        JsonValue::Object(members) => {
            let ghost mm = members_model(members@);
            proof {
                lemma_object_model(*members);
            }
            push_char(out, '{');
            for i in 0..members.len()
                invariant
                    mm == members_model(members@),
                    v@ == Json::Object(mm),
                    out@ == start + seq!['{'] + cypher_members(mm.take(i as int)),
            {
                assert(mm.take(i + 1).drop_last() =~= mm.take(i as int));
                if i > 0 {
                    out.append(", ");
                }
                let key = CypherAdapter::cypher_key(members[i].0.as_str());
                out.append(key.as_str());
                out.append(": ");
                proof {
                    assert(decreases_to!(v@ => v@->Object_0));
                    assert(decreases_to!(mm => mm[i as int]));
                    assert(decreases_to!(mm[i as int] => mm[i as int].1));
                }
                write_value(out, &members[i].1);
                assert(out@ =~= start + seq!['{'] + cypher_members(mm.take(i + 1)));
            }
            assert(mm.take(members.len() as int) =~= mm);
            push_char(out, '}');
        },
    }
}

impl CypherAdapter {
    /// Escape a value for safe embedding in a Cypher statement.
    pub fn escape_value(value: &JsonValue) -> (r: String)
        ensures
            r@ == cypher_value(value@),
    {
        let mut r = String::new();
        write_value(&mut r, value);
        r
    }
}

// ---------------------------------------------------------------------------
// The adapter
// ---------------------------------------------------------------------------

/// Turns an extraction payload into Cypher statements. It remembers the
/// ontology's class names (to put payload labels in their canonical form) and
/// its edges (to name relationships).
pub struct CypherAdapter {
    /// `(from_label, to_label, relationship name)`, one per ontology edge, in order.
    rel_types: Vec<(String, String, String)>,
    /// The ontology's class names, in order.
    labels: Vec<String>,
}

pub struct AdapterModel {
    pub rels: Seq<(Seq<char>, Seq<char>, Seq<char>)>,
    pub labels: Seq<Seq<char>>,
}

pub open spec fn rels_model(v: Seq<(String, String, String)>) -> Seq<(Seq<char>, Seq<char>, Seq<char>)> {
    Seq::new(v.len(), |i: int| (v[i].0@, v[i].1@, v[i].2@))
}

impl View for CypherAdapter {
    type V = AdapterModel;

    closed spec fn view(&self) -> AdapterModel {
        AdapterModel { rels: rels_model(self.rel_types@), labels: strings_model(self.labels@) }
    }
}

/// The adapter that an ontology gives.
pub open spec fn adapter_of(o: OntologyModel) -> AdapterModel {
    AdapterModel {
        rels: Seq::new(o.edges.len(), |i: int| (o.edges[i].from, o.edges[i].to, o.edges[i].name)),
        labels: Seq::new(o.nodes.len(), |i: int| o.nodes[i].name),
    }
}

/// The relationship name for `from -> to`: that of the first ontology edge
/// between them, else `RELATED_TO`.
pub open spec fn relationship_of(
    rels: Seq<(Seq<char>, Seq<char>, Seq<char>)>,
    from: Seq<char>,
    to: Seq<char>,
) -> Seq<char>
    decreases rels.len(),
{
    if rels.len() == 0 {
        "RELATED_TO"@
    } else if rels[0].0 == from && rels[0].1 == to {
        rels[0].2
    } else {
        relationship_of(rels.drop_first(), from, to)
    }
}

/// The ontology's name for a payload label: the first class name equal to
/// it up to ASCII case, else the label itself.
pub open spec fn canonical_label(labels: Seq<Seq<char>>, label: Seq<char>) -> Seq<char>
    decreases labels.len(),
{
    if labels.len() == 0 {
        label
    } else if eq_ignore_ascii_case(labels[0], label) {
        labels[0]
    } else {
        canonical_label(labels.drop_first(), label)
    }
}

/// The records under one payload label: the items of an array, a single
/// object, or none.
pub open spec fn records_of(v: Json) -> Seq<Json> {
    match v {
        Json::Array(items) => items,
        Json::Object(_) => seq![v],
        _ => Seq::empty(),
    }
}

pub open spec fn record_id(r: Json) -> Option<Seq<char>> {
    r.get_str("id"@)
}

pub open spec fn refs_model(v: Seq<&JsonValue>) -> Seq<Json> {
    Seq::new(v.len(), |i: int| v[i]@)
}

impl CypherAdapter {
    pub fn new(ontology: &Ontology) -> (r: Self)
        ensures
            r@ == adapter_of(ontology@),
    {
        let ghost om = ontology@;
        let mut rel_types: Vec<(String, String, String)> = Vec::new();
        for i in 0..ontology.edges.len()
            invariant
                om == ontology@,
                rel_types.len() == i,
                rels_model(rel_types@) == adapter_of(om).rels.take(i as int),
        {
            let e = &ontology.edges[i];
            let ghost before = rel_types@;
            rel_types.push((to_owned(e.from.as_str()), to_owned(e.to.as_str()), to_owned(e.name.as_str())));
            assert forall|j: int| 0 <= j < i + 1 implies #[trigger] rels_model(rel_types@)[j]
                == adapter_of(om).rels.take(i + 1)[j] by {
                if j < i {
                    assert(rel_types@[j] == before[j]);
                    assert(rels_model(before)[j] == adapter_of(om).rels.take(i as int)[j]);
                }
            }
            assert(rels_model(rel_types@) =~= adapter_of(om).rels.take(i + 1));
        }
        let mut labels: Vec<String> = Vec::new();
        for i in 0..ontology.nodes.len()
            invariant
                om == ontology@,
                labels.len() == i,
                strings_model(labels@) == adapter_of(om).labels.take(i as int),
        {
            let ghost before = labels@;
            labels.push(to_owned(ontology.nodes[i].name.as_str()));
            assert forall|j: int| 0 <= j < i + 1 implies #[trigger] strings_model(labels@)[j]
                == adapter_of(om).labels.take(i + 1)[j] by {
                if j < i {
                    assert(labels@[j] == before[j]);
                    assert(strings_model(before)[j] == adapter_of(om).labels.take(i as int)[j]);
                }
            }
            assert(strings_model(labels@) =~= adapter_of(om).labels.take(i + 1));
        }
        assert(rels_model(rel_types@) =~= adapter_of(om).rels);
        assert(strings_model(labels@) =~= adapter_of(om).labels);
        CypherAdapter { rel_types, labels }
    }

    /// The relationship type to use for an edge `from -> to`.
    pub fn relationship_type(&self, from: &str, to: &str) -> (r: String)
        ensures
            r@ == relationship_of(self@.rels, from@, to@),
    {
        let ghost rm = self@.rels;
        let mut i: usize = 0;
        assert(rm.skip(0) =~= rm);
        while i < self.rel_types.len()
            invariant
                i <= self.rel_types.len(),
                rm == rels_model(self.rel_types@),
                relationship_of(rm, from@, to@) == relationship_of(rm.skip(i as int), from@, to@),
            decreases self.rel_types.len() - i,
        {
            assert(rm.skip(i as int).drop_first() =~= rm.skip(i + 1));
            let entry = &self.rel_types[i];
            if str_eq(entry.0.as_str(), from) && str_eq(entry.1.as_str(), to) {
                return to_owned(entry.2.as_str());
            }
            i = i + 1;
        }
        assert(rm.skip(i as int).len() == 0);
        to_owned("RELATED_TO")
    }

    /// The ontology's name for a payload label.
    pub fn canonical_label(&self, label: &str) -> (r: String)
        ensures
            r@ == canonical_label(self@.labels, label@),
    {
        let ghost lm = self@.labels;
        let mut i: usize = 0;
        assert(lm.skip(0) =~= lm);
        while i < self.labels.len()
            invariant
                i <= self.labels.len(),
                lm == strings_model(self.labels@),
                canonical_label(lm, label@) == canonical_label(lm.skip(i as int), label@),
            decreases self.labels.len() - i,
        {
            assert(lm.skip(i as int).drop_first() =~= lm.skip(i + 1));
            if str_eq_ignore_ascii_case(self.labels[i].as_str(), label) {
                return to_owned(self.labels[i].as_str());
            }
            i = i + 1;
        }
        assert(lm.skip(i as int).len() == 0);
        to_owned(label)
    }

    /// The records stored under one payload label.
    pub fn records(value: &JsonValue) -> (r: Vec<&JsonValue>)
        ensures
            refs_model(r@) == records_of(value@),
    {
        match value {
            JsonValue::Array(items) => {
                proof {
                    lemma_array_model(*items);
                }
                let mut r: Vec<&JsonValue> = Vec::new();
                for i in 0..items.len()
                    invariant
                        r.len() == i,
                        refs_model(r@) == values_model(items@).take(i as int),
                {
                    let ghost before = r@;
                    r.push(&items[i]);
                    assert forall|j: int| 0 <= j < i + 1 implies #[trigger] refs_model(r@)[j]
                        == values_model(items@).take(i + 1)[j] by {
                        if j < i {
                            assert(r@[j] == before[j]);
                            assert(refs_model(before)[j] == values_model(items@).take(i as int)[j]);
                        }
                    }
                    assert(refs_model(r@) =~= values_model(items@).take(i + 1));
                }
                assert(values_model(items@).take(items.len() as int) =~= values_model(items@));
                r
            },
            JsonValue::Object(_) => {
                let r = vec![value];
                assert(refs_model(r@) =~= seq![value@]);
                r
            },
            _ => {
                let r: Vec<&JsonValue> = Vec::new();
                assert(refs_model(r@) =~= Seq::<Json>::empty());
                r
            },
        }
    }
}

impl Default for CypherAdapter {
    fn default() -> (r: Self)
        ensures
            r@.rels.len() == 0,
            r@.labels.len() == 0,
    {
        CypherAdapter { rel_types: Vec::new(), labels: Vec::new() }
    }
}

// ---------------------------------------------------------------------------
// Statements
// ---------------------------------------------------------------------------

/// Index each record's id by the canonical label it is stored under; a
/// later record with the same id wins.
pub open spec fn index_records(
    m: Map<Seq<char>, Seq<char>>,
    label: Seq<char>,
    recs: Seq<Json>,
) -> Map<Seq<char>, Seq<char>>
    decreases recs.len(),
{
    if recs.len() == 0 {
        m
    } else {
        let before = index_records(m, label, recs.drop_last());
        match record_id(recs.last()) {
            Some(id) => before.insert(id, label),
            None => before,
        }
    }
}

/// The label of every record id in the payload.
pub open spec fn id_index(labels: Seq<Seq<char>>, entities: Seq<(Seq<char>, Json)>) -> Map<
    Seq<char>,
    Seq<char>,
>
    decreases entities.len(),
{
    if entities.len() == 0 {
        Map::empty()
    } else {
        index_records(
            id_index(labels, entities.drop_last()),
            canonical_label(labels, entities.last().0),
            records_of(entities.last().1),
        )
    }
}

/// The records that carry a string `id`, in order.
pub open spec fn records_with_id(recs: Seq<Json>) -> Seq<Json>
    decreases recs.len(),
{
    if recs.len() == 0 {
        Seq::empty()
    } else {
        let before = records_with_id(recs.drop_last());
        if record_id(recs.last()) is Some {
            before.push(recs.last())
        } else {
            before
        }
    }
}

/// The statement that merges the records of one label, all in one `UNWIND`.
pub open spec fn node_statement(label: Seq<char>, recs: Seq<Json>) -> Seq<char> {
    "UNWIND ["@ + cypher_list(recs) + "] AS record\nMERGE (n:"@ + sanitized_identifier(label)
        + " { id: record.id })\nON CREATE SET n += record\nON MATCH SET n += record;"@
}

/// One node statement per payload label that has records with an id.
pub open spec fn node_statements(m: AdapterModel, entities: Seq<(Seq<char>, Json)>) -> Seq<
    Seq<char>,
>
    decreases entities.len(),
{
    if entities.len() == 0 {
        Seq::empty()
    } else {
        let before = node_statements(m, entities.drop_last());
        let valid = records_with_id(records_of(entities.last().1));
        if valid.len() == 0 {
            before
        } else {
            before.push(node_statement(canonical_label(m.labels, entities.last().0), valid))
        }
    }
}

/// An edge to be merged: `(child label, parent label, child id, parent id)`.
pub type RowModel = (Seq<char>, Seq<char>, Seq<char>, Seq<char>);

/// The edge that a reference object (`{ "id": .., "type": .. }`) inside a
/// record gives.
pub open spec fn ref_row(labels: Seq<Seq<char>>, child: Seq<char>, child_id: Seq<char>, v: Json) -> Seq<
    RowModel,
> {
    match (v.get_str("id"@), v.get_str("type"@)) {
        (Some(rid), Some(t)) => seq![(child, canonical_label(labels, t), child_id, rid)],
        _ => Seq::empty(),
    }
}

pub open spec fn item_ref_rows(
    labels: Seq<Seq<char>>,
    child: Seq<char>,
    child_id: Seq<char>,
    items: Seq<Json>,
) -> Seq<RowModel>
    decreases items.len(),
{
    if items.len() == 0 {
        Seq::empty()
    } else {
        item_ref_rows(labels, child, child_id, items.drop_last()) + ref_row(
            labels,
            child,
            child_id,
            items.last(),
        )
    }
}

/// The edges that one member value gives: one reference, or an array of them.
pub open spec fn value_ref_rows(
    labels: Seq<Seq<char>>,
    child: Seq<char>,
    child_id: Seq<char>,
    v: Json,
) -> Seq<RowModel> {
    match v {
        Json::Array(items) => item_ref_rows(labels, child, child_id, items),
        _ => ref_row(labels, child, child_id, v),
    }
}

pub open spec fn parent_row(
    ids: Map<Seq<char>, Seq<char>>,
    child: Seq<char>,
    child_id: Seq<char>,
    p: Json,
) -> Seq<RowModel> {
    match p.as_str() {
        Some(pid) => if ids.contains_key(pid) {
            seq![(child, ids[pid], child_id, pid)]
        } else {
            Seq::empty()
        },
        None => Seq::empty(),
    }
}

/// The edges to the records named in a `parent_source_ids` list.
pub open spec fn parent_rows(
    ids: Map<Seq<char>, Seq<char>>,
    child: Seq<char>,
    child_id: Seq<char>,
    ps: Seq<Json>,
) -> Seq<RowModel>
    decreases ps.len(),
{
    if ps.len() == 0 {
        Seq::empty()
    } else {
        parent_rows(ids, child, child_id, ps.drop_last()) + parent_row(ids, child, child_id, ps.last())
    }
}

pub open spec fn member_rows(
    labels: Seq<Seq<char>>,
    ids: Map<Seq<char>, Seq<char>>,
    child: Seq<char>,
    child_id: Seq<char>,
    key: Seq<char>,
    v: Json,
) -> Seq<RowModel> {
    (if key == "parent_source_ids"@ {
        match v {
            Json::Array(ps) => parent_rows(ids, child, child_id, ps),
            _ => Seq::empty(),
        }
    } else {
        Seq::empty()
    }) + value_ref_rows(labels, child, child_id, v)
}

pub open spec fn members_rows(
    labels: Seq<Seq<char>>,
    ids: Map<Seq<char>, Seq<char>>,
    child: Seq<char>,
    child_id: Seq<char>,
    ms: Seq<(Seq<char>, Json)>,
) -> Seq<RowModel>
    decreases ms.len(),
{
    if ms.len() == 0 {
        Seq::empty()
    } else {
        members_rows(labels, ids, child, child_id, ms.drop_last()) + member_rows(
            labels,
            ids,
            child,
            child_id,
            ms.last().0,
            ms.last().1,
        )
    }
}

/// The edges that one record gives.
pub open spec fn record_rows(
    labels: Seq<Seq<char>>,
    ids: Map<Seq<char>, Seq<char>>,
    child: Seq<char>,
    r: Json,
) -> Seq<RowModel> {
    match r {
        Json::Object(ms) => match record_id(r) {
            Some(id) => members_rows(labels, ids, child, id, ms),
            None => Seq::empty(),
        },
        _ => Seq::empty(),
    }
}

pub open spec fn records_rows(
    labels: Seq<Seq<char>>,
    ids: Map<Seq<char>, Seq<char>>,
    child: Seq<char>,
    recs: Seq<Json>,
) -> Seq<RowModel>
    decreases recs.len(),
{
    if recs.len() == 0 {
        Seq::empty()
    } else {
        records_rows(labels, ids, child, recs.drop_last()) + record_rows(
            labels,
            ids,
            child,
            recs.last(),
        )
    }
}

/// Every edge of the payload, in payload order.
pub open spec fn entities_rows(
    labels: Seq<Seq<char>>,
    ids: Map<Seq<char>, Seq<char>>,
    entities: Seq<(Seq<char>, Json)>,
) -> Seq<RowModel>
    decreases entities.len(),
{
    if entities.len() == 0 {
        Seq::empty()
    } else {
        entities_rows(labels, ids, entities.drop_last()) + records_rows(
            labels,
            ids,
            canonical_label(labels, entities.last().0),
            records_of(entities.last().1),
        )
    }
}

/// Edges grouped by `(child label, parent label)`: the id pairs of each group.
pub type GroupModel = ((Seq<char>, Seq<char>), Seq<(Seq<char>, Seq<char>)>);

pub open spec fn group_index(gs: Seq<GroupModel>, key: (Seq<char>, Seq<char>)) -> int
    decreases gs.len(),
{
    if gs.len() == 0 {
        -1
    } else if gs[0].0 == key {
        0
    } else {
        let k = group_index(gs.drop_first(), key);
        if k < 0 {
            -1
        } else {
            k + 1
        }
    }
}

pub open spec fn add_row(gs: Seq<GroupModel>, row: RowModel) -> Seq<GroupModel> {
    let key = (row.0, row.1);
    let k = group_index(gs, key);
    if k >= 0 {
        gs.update(k, (key, gs[k].1.push((row.2, row.3))))
    } else {
        gs.push((key, seq![(row.2, row.3)]))
    }
}

/// The groups in the order their first edge comes.
pub open spec fn group_rows(rows: Seq<RowModel>) -> Seq<GroupModel>
    decreases rows.len(),
{
    if rows.len() == 0 {
        Seq::empty()
    } else {
        add_row(group_rows(rows.drop_last()), rows.last())
    }
}

pub open spec fn id_rules() -> Seq<(char, Seq<char>)> {
    seq![('\\', "\\\\"@), ('"', "\\\""@)]
}

pub open spec fn edge_pair_text(p: (Seq<char>, Seq<char>)) -> Seq<char> {
    "{childId: \""@ + escape_with(p.0, id_rules()) + "\", parentId: \""@ + escape_with(
        p.1,
        id_rules(),
    ) + "\"}"@
}

/// The statement that merges one group of edges, all in one `UNWIND`.
pub open spec fn edge_statement(m: AdapterModel, g: GroupModel) -> Seq<char> {
    "UNWIND ["@ + join(Seq::new(g.1.len(), |i: int| edge_pair_text(g.1[i])), ", "@)
        + "] AS edge\nMATCH (a:"@ + sanitized_identifier(g.0.0) + " { id: edge.childId }),\n(b:"@
        + sanitized_identifier(g.0.1) + " { id: edge.parentId })\nMERGE (a)-[:"@
        + sanitized_identifier(relationship_of(m.rels, g.0.0, g.0.1)) + "]->(b);"@
}

/// The statements that a payload gives: one per label with records, then
/// one per group of edges. A payload that is not an object gives none.
pub open spec fn query_blocks(m: AdapterModel, payload: Json) -> Seq<Seq<char>> {
    match payload {
        Json::Object(es) => {
            let ids = id_index(m.labels, es);
            let gs = group_rows(entities_rows(m.labels, ids, es));
            node_statements(m, es) + Seq::new(gs.len(), |i: int| edge_statement(m, gs[i]))
        },
        _ => Seq::empty(),
    }
}

/// The Cypher that a payload gives: its statements, separated by a blank
/// line.
pub open spec fn queries_text(m: AdapterModel, payload: Json) -> Seq<char> {
    join(query_blocks(m, payload), "\n\n"@)
}

impl CypherAdapter {
    /// Phase 1: the label of every record id.
    fn index_ids(&self, entities: &Vec<(String, JsonValue)>) -> (r: StrMap)
        ensures
            r@ == id_index(self@.labels, members_model(entities@)),
    {
        let ghost es = members_model(entities@);
        let ghost labels = self@.labels;
        let mut ids = StrMap::new();
        for i in 0..entities.len()
            invariant
                es == members_model(entities@),
                labels == self@.labels,
                ids@ == id_index(labels, es.take(i as int)),
        {
            assert(es.take(i + 1).drop_last() =~= es.take(i as int));
            let label = self.canonical_label(entities[i].0.as_str());
            let recs = Self::records(&entities[i].1);
            let ghost rm = refs_model(recs@);
            let ghost base = ids@;
            assert(rm.take(0) =~= Seq::<Json>::empty());
            for j in 0..recs.len()
                invariant
                    rm == refs_model(recs@),
                    ids@ == index_records(base, label@, rm.take(j as int)),
            {
                assert(rm.take(j + 1).drop_last() =~= rm.take(j as int));
                match recs[j].get_str("id") {
                    Some(id) => {
                        ids.insert(to_owned(id), to_owned(label.as_str()));
                    },
                    None => {},
                }
            }
            assert(rm.take(recs.len() as int) =~= rm);
        }
        assert(es.take(entities.len() as int) =~= es);
        ids
    }

    /// Phase 2: the statement for one payload label, if it has records with an id.
    fn node_statement_for(&self, label: &str, value: &JsonValue) -> (r: Option<String>)
        ensures
            ({
                let valid = records_with_id(records_of(value@));
                match r {
                    Some(t) => valid.len() > 0 && t@ == node_statement(
                        canonical_label(self@.labels, label@),
                        valid,
                    ),
                    None => valid.len() == 0,
                }
            }),
    {
        let recs = Self::records(value);
        let ghost rm = refs_model(recs@);
        let mut out = String::new();
        out.append("UNWIND [");
        let ghost start = out@;
        let mut any = false;
        assert(rm.take(0) =~= Seq::<Json>::empty());
        for j in 0..recs.len()
            invariant
                rm == refs_model(recs@),
                start == "UNWIND ["@,
                any == (records_with_id(rm.take(j as int)).len() > 0),
                out@ == start + cypher_list(records_with_id(rm.take(j as int))),
        {
            assert(rm.take(j + 1).drop_last() =~= rm.take(j as int));
            let ghost before = records_with_id(rm.take(j as int));
            if recs[j].get_str("id").is_some() {
                if any {
                    out.append(", ");
                }
                write_value(&mut out, recs[j]);
                any = true;
                assert(records_with_id(rm.take(j + 1)) == before.push(rm[j as int]));
                assert(before.push(rm[j as int]).drop_last() =~= before);
            }
        }
        assert(rm.take(recs.len() as int) =~= rm);
        if !any {
            return None;
        }
        out.append("] AS record\nMERGE (n:");
        let canonical = self.canonical_label(label);
        let safe_label = Self::sanitize_identifier(canonical.as_str());
        out.append(safe_label.as_str());
        out.append(" { id: record.id })\nON CREATE SET n += record\nON MATCH SET n += record;");
        Some(out)
    }

    /// Phase 2: one statement per payload label with records.
    fn push_node_statements(&self, entities: &Vec<(String, JsonValue)>, out: &mut Vec<String>)
        ensures
            strings_model(final(out)@) == strings_model(old(out)@) + node_statements(
                self@,
                members_model(entities@),
            ),
    {
        let ghost es = members_model(entities@);
        let ghost start = strings_model(out@);
        for i in 0..entities.len()
            invariant
                es == members_model(entities@),
                strings_model(out@) == start + node_statements(self@, es.take(i as int)),
        {
            assert(es.take(i + 1).drop_last() =~= es.take(i as int));
            let ghost before = out@;
            match self.node_statement_for(entities[i].0.as_str(), &entities[i].1) {
                Some(t) => {
                    out.push(t);
                    assert(strings_model(out@) =~= strings_model(before).push(t@));
                },
                None => {},
            }
        }
        assert(es.take(entities.len() as int) =~= es);
    }
}

pub open spec fn rows_model(v: Seq<(String, String, String, String)>) -> Seq<RowModel> {
    Seq::new(v.len(), |i: int| (v[i].0@, v[i].1@, v[i].2@, v[i].3@))
}

proof fn lemma_rows_push(v: Seq<(String, String, String, String)>, row: (String, String, String, String))
    ensures
        rows_model(v.push(row)) == rows_model(v).push((row.0@, row.1@, row.2@, row.3@)),
{
    assert(rows_model(v.push(row)) =~= rows_model(v).push((row.0@, row.1@, row.2@, row.3@)));
}

impl CypherAdapter {
    fn push_ref_row(
        &self,
        child: &str,
        child_id: &str,
        v: &JsonValue,
        rows: &mut Vec<(String, String, String, String)>,
    )
        ensures
            rows_model(final(rows)@) == rows_model(old(rows)@) + ref_row(
                self@.labels,
                child@,
                child_id@,
                v@,
            ),
    {
        let ghost before = rows@;
        match (v.get_str("id"), v.get_str("type")) {
            (Some(rid), Some(t)) => {
                let row = (to_owned(child), self.canonical_label(t), to_owned(child_id), to_owned(rid));
                rows.push(row);
                proof {
                    lemma_rows_push(before, row);
                }
            },
            _ => {
                assert(rows_model(rows@) =~= rows_model(before) + Seq::<RowModel>::empty());
            },
        }
    }

    fn push_value_ref_rows(
        &self,
        child: &str,
        child_id: &str,
        v: &JsonValue,
        rows: &mut Vec<(String, String, String, String)>,
    )
        ensures
            rows_model(final(rows)@) == rows_model(old(rows)@) + value_ref_rows(
                self@.labels,
                child@,
                child_id@,
                v@,
            ),
    {
        let ghost start = rows_model(rows@);
        match v {
            JsonValue::Array(items) => {
                proof {
                    lemma_array_model(*items);
                }
                let ghost va = values_model(items@);
                assert(va.take(0) =~= Seq::<Json>::empty());
                for i in 0..items.len()
                    invariant
                        va == values_model(items@),
                        rows_model(rows@) == start + item_ref_rows(
                            self@.labels,
                            child@,
                            child_id@,
                            va.take(i as int),
                        ),
                {
                    assert(va.take(i + 1).drop_last() =~= va.take(i as int));
                    self.push_ref_row(child, child_id, &items[i], rows);
                    assert(rows_model(rows@) =~= start + item_ref_rows(
                        self@.labels,
                        child@,
                        child_id@,
                        va.take(i + 1),
                    ));
                }
                assert(va.take(items.len() as int) =~= va);
            },
            _ => {
                self.push_ref_row(child, child_id, v, rows);
            },
        }
    }

    fn push_parent_rows(
        child: &str,
        child_id: &str,
        ids: &StrMap,
        ps: &Vec<JsonValue>,
        rows: &mut Vec<(String, String, String, String)>,
    )
        ensures
            rows_model(final(rows)@) == rows_model(old(rows)@) + parent_rows(
                ids@,
                child@,
                child_id@,
                values_model(ps@),
            ),
    {
        let ghost start = rows_model(rows@);
        let ghost pm = values_model(ps@);
        assert(pm.take(0) =~= Seq::<Json>::empty());
        for i in 0..ps.len()
            invariant
                pm == values_model(ps@),
                rows_model(rows@) == start + parent_rows(ids@, child@, child_id@, pm.take(i as int)),
        {
            assert(pm.take(i + 1).drop_last() =~= pm.take(i as int));
            let ghost before = rows@;
            match ps[i].as_str() {
                Some(pid) => {
                    match ids.get(pid) {
                        Some(parent_label) => {
                            let row = (
                                to_owned(child),
                                to_owned(parent_label.as_str()),
                                to_owned(child_id),
                                to_owned(pid),
                            );
                            rows.push(row);
                            proof {
                                lemma_rows_push(before, row);
                            }
                        },
                        None => {},
                    }
                },
                None => {},
            }
            assert(rows_model(rows@) =~= start + parent_rows(
                ids@,
                child@,
                child_id@,
                pm.take(i + 1),
            ));
        }
        assert(pm.take(ps.len() as int) =~= pm);
    }

    fn push_record_rows(
        &self,
        child: &str,
        ids: &StrMap,
        r: &JsonValue,
        rows: &mut Vec<(String, String, String, String)>,
    )
        ensures
            rows_model(final(rows)@) == rows_model(old(rows)@) + record_rows(
                self@.labels,
                ids@,
                child@,
                r@,
            ),
    {
        let ghost start = rows_model(rows@);
        let id = match r.get_str("id") {
            Some(id) => id,
            None => {
                assert(rows_model(rows@) =~= start + record_rows(self@.labels, ids@, child@, r@));
                return;
            },
        };
        match r {
            JsonValue::Object(members) => {
                proof {
                    lemma_object_model(*members);
                }
                let ghost mm = members_model(members@);
                assert(mm.take(0) =~= Seq::<(Seq<char>, Json)>::empty());
                for i in 0..members.len()
                    invariant
                        mm == members_model(members@),
                        rows_model(rows@) == start + members_rows(
                            self@.labels,
                            ids@,
                            child@,
                            id@,
                            mm.take(i as int),
                        ),
                {
                    assert(mm.take(i + 1).drop_last() =~= mm.take(i as int));
                    let ghost mid = rows_model(rows@);
                    if str_eq(members[i].0.as_str(), "parent_source_ids") {
                        match &members[i].1 {
                            JsonValue::Array(ps) => {
                                proof {
                                    lemma_array_model(*ps);
                                }
                                Self::push_parent_rows(child, id, ids, ps, rows);
                            },
                            _ => {},
                        }
                    }
                    let ghost mid2 = rows_model(rows@);
                    self.push_value_ref_rows(child, id, &members[i].1, rows);
                    assert(rows_model(rows@) =~= start + members_rows(
                        self@.labels,
                        ids@,
                        child@,
                        id@,
                        mm.take(i + 1),
                    ));
                }
                assert(mm.take(members.len() as int) =~= mm);
            },
            _ => {
                assert(rows_model(rows@) =~= start + record_rows(self@.labels, ids@, child@, r@));
            },
        }
    }

    /// Phase 3: every edge of the payload, in payload order.
    fn collect_rows(&self, entities: &Vec<(String, JsonValue)>, ids: &StrMap) -> (r: Vec<
        (String, String, String, String),
    >)
        ensures
            rows_model(r@) == entities_rows(self@.labels, ids@, members_model(entities@)),
    {
        let ghost es = members_model(entities@);
        let mut rows: Vec<(String, String, String, String)> = Vec::new();
        assert(rows_model(rows@) =~= Seq::<RowModel>::empty());
        for i in 0..entities.len()
            invariant
                es == members_model(entities@),
                rows_model(rows@) == entities_rows(self@.labels, ids@, es.take(i as int)),
        {
            assert(es.take(i + 1).drop_last() =~= es.take(i as int));
            let child = self.canonical_label(entities[i].0.as_str());
            let recs = Self::records(&entities[i].1);
            let ghost rm = refs_model(recs@);
            let ghost base = rows_model(rows@);
            assert(rm.take(0) =~= Seq::<Json>::empty());
            for j in 0..recs.len()
                invariant
                    rm == refs_model(recs@),
                    rows_model(rows@) == base + records_rows(
                        self@.labels,
                        ids@,
                        child@,
                        rm.take(j as int),
                    ),
            {
                assert(rm.take(j + 1).drop_last() =~= rm.take(j as int));
                self.push_record_rows(child.as_str(), ids, recs[j], &mut rows);
                assert(rows_model(rows@) =~= base + records_rows(
                    self@.labels,
                    ids@,
                    child@,
                    rm.take(j + 1),
                ));
            }
            assert(rm.take(recs.len() as int) =~= rm);
        }
        assert(es.take(entities.len() as int) =~= es);
        rows
    }
}

pub open spec fn groups_model(v: Seq<((String, String), Vec<(String, String)>)>) -> Seq<GroupModel> {
    Seq::new(v.len(), |i: int| ((v[i].0.0@, v[i].0.1@), pairs_model(v[i].1@)))
}

proof fn lemma_group_index_found(gs: Seq<GroupModel>, key: (Seq<char>, Seq<char>), k: int)
    requires
        0 <= k < gs.len(),
        gs[k].0 == key,
        forall|j: int| 0 <= j < k ==> #[trigger] gs[j].0 != key,
    ensures
        group_index(gs, key) == k,
    decreases k,
{
    if k > 0 {
        assert(gs[0].0 != key);
        lemma_group_index_found(gs.drop_first(), key, k - 1);
    }
}

proof fn lemma_group_index_absent(gs: Seq<GroupModel>, key: (Seq<char>, Seq<char>))
    requires
        forall|j: int| 0 <= j < gs.len() ==> #[trigger] gs[j].0 != key,
    ensures
        group_index(gs, key) == -1,
    decreases gs.len(),
{
    if gs.len() > 0 {
        assert(gs[0].0 != key);
        assert forall|j: int| 0 <= j < gs.drop_first().len() implies #[trigger] gs.drop_first()[j].0
            != key by {
            assert(gs.drop_first()[j] == gs[j + 1]);
        }
        lemma_group_index_absent(gs.drop_first(), key);
    }
}

/// Group edges by `(child label, parent label)`, in the order of each
/// group's first edge.
fn group_edge_rows(rows: &Vec<(String, String, String, String)>) -> (r: Vec<
    ((String, String), Vec<(String, String)>),
>)
    ensures
        groups_model(r@) == group_rows(rows_model(rows@)),
{
    let ghost rm = rows_model(rows@);
    let mut groups: Vec<((String, String), Vec<(String, String)>)> = Vec::new();
    assert(groups_model(groups@) =~= Seq::<GroupModel>::empty());
    assert(rm.take(0) =~= Seq::<RowModel>::empty());
    for i in 0..rows.len()
        invariant
            rm == rows_model(rows@),
            groups_model(groups@) == group_rows(rm.take(i as int)),
    {
        assert(rm.take(i + 1).drop_last() =~= rm.take(i as int));
        let row = &rows[i];
        let ghost gm = groups_model(groups@);
        let ghost key = (row.0@, row.1@);
        let mut k: usize = 0;
        while k < groups.len()
            invariant
                k <= groups.len(),
                gm == groups_model(groups@),
                key == (row.0@, row.1@),
                forall|j: int| 0 <= j < k ==> #[trigger] gm[j].0 != key,
            ensures
                k <= groups.len(),
                forall|j: int| 0 <= j < k ==> #[trigger] gm[j].0 != key,
                k < groups.len() ==> gm[k as int].0 == key,
            decreases groups.len() - k,
        {
            if str_eq(groups[k].0.0.as_str(), row.0.as_str()) && str_eq(
                groups[k].0.1.as_str(),
                row.1.as_str(),
            ) {
                break;
            }
            k = k + 1;
        }
        let pair = (to_owned(row.2.as_str()), to_owned(row.3.as_str()));
        if k < groups.len() {
            proof {
                lemma_group_index_found(gm, key, k as int);
            }
            let ghost old_groups = groups@;
            let mut g = groups.remove(k);
            let ghost old_pairs = g.1@;
            g.1.push(pair);
            assert(pairs_model(g.1@) =~= pairs_model(old_pairs).push((pair.0@, pair.1@)));
            groups.insert(k, g);
            assert(groups@ =~= old_groups.update(k as int, g));
            assert(groups_model(groups@) =~= gm.update(
                k as int,
                (key, gm[k as int].1.push((pair.0@, pair.1@))),
            ));
        } else {
            proof {
                lemma_group_index_absent(gm, key);
            }
            let ghost old_groups = groups@;
            let mut pairs: Vec<(String, String)> = Vec::new();
            pairs.push(pair);
            assert(pairs_model(pairs@) =~= seq![(pair.0@, pair.1@)]);
            groups.push(((to_owned(row.0.as_str()), to_owned(row.1.as_str())), pairs));
            assert(groups_model(groups@) =~= gm.push((key, seq![(pair.0@, pair.1@)])));
        }
    }
    assert(rm.take(rows.len() as int) =~= rm);
    groups
}

impl CypherAdapter {
    /// The statement for one group of edges.
    fn edge_statement_text(&self, g: &((String, String), Vec<(String, String)>)) -> (r: String)
        ensures
            r@ == edge_statement(self@, ((g.0.0@, g.0.1@), pairs_model(g.1@))),
    {
        let ghost pm = pairs_model(g.1@);
        let ghost parts = Seq::new(pm.len(), |i: int| edge_pair_text(pm[i]));
        let mut out = String::new();
        out.append("UNWIND [");
        let ghost start = out@;
        let rules: [(char, &str); 2] = [('\\', "\\\\"), ('"', "\\\"")];
        assert(rules_model(rules@) =~= id_rules());
        assert(parts.take(0) =~= Seq::<Seq<char>>::empty());
        for i in 0..g.1.len()
            invariant
                pm == pairs_model(g.1@),
                parts == Seq::new(pm.len(), |i: int| edge_pair_text(pm[i])),
                rules_model(rules@) == id_rules(),
                out@ == start + join(parts.take(i as int), ", "@),
        {
            assert(parts.take(i + 1).drop_last() =~= parts.take(i as int));
            let ghost mid = out@;
            if i > 0 {
                out.append(", ");
            }
            let ghost mid2 = out@;
            out.append("{childId: \"");
            push_escaped(&mut out, g.1[i].0.as_str(), &rules);
            out.append("\", parentId: \"");
            push_escaped(&mut out, g.1[i].1.as_str(), &rules);
            out.append("\"}");
            assert(out@ =~= mid2 + edge_pair_text(pm[i as int]));
            assert(out@ =~= start + join(parts.take(i + 1), ", "@));
        }
        assert(parts.take(g.1.len() as int) =~= parts);
        out.append("] AS edge\nMATCH (a:");
        let child = Self::sanitize_identifier(g.0.0.as_str());
        out.append(child.as_str());
        out.append(" { id: edge.childId }),\n(b:");
        let parent = Self::sanitize_identifier(g.0.1.as_str());
        out.append(parent.as_str());
        out.append(" { id: edge.parentId })\nMERGE (a)-[:");
        let rel = self.relationship_type(g.0.0.as_str(), g.0.1.as_str());
        let safe_rel = Self::sanitize_identifier(rel.as_str());
        out.append(safe_rel.as_str());
        out.append("]->(b);");
        out
    }

    /// The statements that an extraction payload gives, each ending in `;`.
    pub fn statements(&self, payload: &JsonValue) -> (r: Vec<String>)
        ensures
            strings_model(r@) == query_blocks(self@, payload@),
    {
        match payload {
            JsonValue::Object(entities) => {
                proof {
                    lemma_object_model(*entities);
                }
                let ghost es = members_model(entities@);
                let ids = self.index_ids(entities);
                let mut statements: Vec<String> = Vec::new();
                assert(strings_model(statements@) =~= Seq::<Seq<char>>::empty());
                self.push_node_statements(entities, &mut statements);
                let ghost node_part = strings_model(statements@);
                let rows = self.collect_rows(entities, &ids);
                let groups = group_edge_rows(&rows);
                let ghost gm = groups_model(groups@);
                let ghost edge_part = Seq::new(gm.len(), |i: int| edge_statement(self@, gm[i]));
                for i in 0..groups.len()
                    invariant
                        gm == groups_model(groups@),
                        edge_part == Seq::new(gm.len(), |i: int| edge_statement(self@, gm[i])),
                        strings_model(statements@) == node_part + edge_part.take(i as int),
                {
                    let ghost before = statements@;
                    let t = self.edge_statement_text(&groups[i]);
                    assert(t@ == edge_part[i as int]);
                    statements.push(t);
                    assert(strings_model(statements@) =~= strings_model(before).push(t@));
                    assert(strings_model(statements@) =~= node_part + edge_part.take(i + 1));
                }
                assert(edge_part.take(groups.len() as int) =~= edge_part);
                statements
            },
            _ => {
                let r: Vec<String> = Vec::new();
                assert(strings_model(r@) =~= Seq::<Seq<char>>::empty());
                r
            },
        }
    }

    /// Turn an extraction payload into Cypher statements.
    pub fn queries(&self, payload: &JsonValue) -> (r: String)
        ensures
            r@ == queries_text(self@, payload@),
    {
        let statements = self.statements(payload);
        join_strings(&statements, "\n\n")
    }
}

impl super::PersistenceAdapter for CypherAdapter {
    /// Turn an extraction payload into Cypher statements.
    fn generate_queries(&self, payload: &JsonValue) -> (r: String)
        ensures
            r@ == queries_text(self@, payload@),
    {
        self.queries(payload)
    }
}

} // verus!
