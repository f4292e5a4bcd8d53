//! What holds of the Cypher generation for every input.

use vstd::prelude::*;

use crate::json::Json;
use crate::neo4j::{lemma_scan_concat, scan_from, Quote};
use crate::ontology::model::OntologyModel;
use crate::persistence::cypher::{
    adapter_of, query_blocks, canonical_label, entities_rows, relationship_of, group_rows, id_index, is_valid_identifier, node_statements,
    queries_text, record_id, records_of, records_rows, records_with_id, sanitize_char, edge_statement,
    sanitized_identifier, string_rules, add_row, group_index, AdapterModel, GroupModel, RowModel,
};
use crate::text::{
    ascii_lowercase, eq_ignore_ascii_case, escape_with, is_ascii_digit, is_ident_char, join, rule_for,
};

verus! {

/// The records merged for a label are exactly its records with a string
/// `id`, each kept, in order: a record without one is skipped and stops
/// none of the others.
pub proof fn law_records_with_id_are_the_identified(recs: Seq<Json>)
    ensures
        records_with_id(recs) == recs.filter(|x: Json| x.get_str("id"@) is Some),
        forall|k: int| 0 <= k < recs.len() && (#[trigger] recs[k]).get_str("id"@) is Some
            ==> records_with_id(recs).contains(recs[k]),
        forall|x: Json| #[trigger] records_with_id(recs).contains(x) ==> recs.contains(x) && x.get_str("id"@) is Some,
    decreases recs.len(),
{
    let pred = |x: Json| x.get_str("id"@) is Some;
    reveal(Seq::filter);
    if recs.len() > 0 {
        let front = recs.drop_last();
        law_records_with_id_are_the_identified(front);
        assert forall|k: int| 0 <= k < recs.len() && (#[trigger] recs[k]).get_str("id"@) is Some
            implies records_with_id(recs).contains(recs[k]) by {
            if k < front.len() {
                assert(front[k] == recs[k]);
                let j = choose|j: int| 0 <= j < records_with_id(front).len() && records_with_id(front)[j] == front[k];
                assert(records_with_id(recs)[j] == recs[k]);
            } else {
                assert(records_with_id(recs).last() == recs[k]);
            }
        }
        assert forall|x: Json| #[trigger] records_with_id(recs).contains(x) implies recs.contains(x) && x.get_str("id"@) is Some by {
            let j = choose|j: int| 0 <= j < records_with_id(recs).len() && records_with_id(recs)[j] == x;
            if j < records_with_id(front).len() {
                assert(records_with_id(front)[j] == x);
                assert(records_with_id(front).contains(x));
                let i = choose|i: int| 0 <= i < front.len() && front[i] == x;
                assert(recs[i] == x);
            } else {
                assert(x == recs.last());
                assert(recs[recs.len() - 1] == x);
            }
        }
    }
}

/// Sanitizing always gives a valid Cypher identifier (not empty, starting
/// with an ASCII letter or `_`, made of ASCII letters, digits and `_`), and
/// leaves a valid identifier as it is.
pub proof fn law_sanitized_identifier_is_valid(s: Seq<char>)
    ensures
        is_valid_identifier(sanitized_identifier(s)),
        is_valid_identifier(s) ==> sanitized_identifier(s) == s,
{
    let t = s.map_values(|c: char| sanitize_char(c));
    assert forall|i: int| 0 <= i < t.len() implies is_ident_char(#[trigger] t[i]) by {
        assert(t[i] == sanitize_char(s[i]));
    }
    if t.len() == 0 || is_ascii_digit(t[0]) {
        let r = seq!['_'] + t;
        assert forall|i: int| 0 <= i < r.len() implies is_ident_char(#[trigger] r[i]) by {
            if i > 0 {
                assert(r[i] == t[i - 1]);
            }
        }
        assert(sanitized_identifier(s) == r);
    } else {
        assert(is_ident_char(t[0]));
        assert(sanitized_identifier(s) == t);
    }
    if is_valid_identifier(s) {
        assert forall|i: int| 0 <= i < s.len() implies t[i] == s[i] by {
            assert(is_ident_char(s[i]));
        }
        assert(t =~= s);
        assert(!is_ascii_digit(s[0]));
    }
}

/// The canonical form of a payload label equals the label up to ASCII case,
/// is one of the ontology's class names when some class name equals the
/// label up to ASCII case, and does not change when put in canonical form
/// again.
pub proof fn law_canonical_label_is_stable(labels: Seq<Seq<char>>, label: Seq<char>)
    ensures
        eq_ignore_ascii_case(canonical_label(labels, label), label),
        (exists|i: int| 0 <= i < labels.len() && eq_ignore_ascii_case(#[trigger] labels[i], label))
            ==> labels.contains(canonical_label(labels, label)),
        canonical_label(labels, canonical_label(labels, label)) == canonical_label(labels, label),
    decreases labels.len(),
{
    if labels.len() > 0 {
        let c = canonical_label(labels, label);
        if eq_ignore_ascii_case(labels[0], label) {
            assert(c == labels[0]);
            assert(labels.contains(c));
        } else {
            let rest = labels.drop_first();
            law_canonical_label_is_stable(rest, label);
            assert(c == canonical_label(rest, label));
            // `labels[0]` does not match `c` either, since `c` matches `label`.
            assert(ascii_lowercase(c) == ascii_lowercase(label));
            assert(!eq_ignore_ascii_case(labels[0], c));
            if exists|i: int| 0 <= i < labels.len() && eq_ignore_ascii_case(#[trigger] labels[i], label) {
                let i = choose|i: int| 0 <= i < labels.len() && eq_ignore_ascii_case(#[trigger] labels[i], label);
                assert(i > 0);
                assert(rest[i - 1] == labels[i]);
                assert(rest.contains(c));
                let k = choose|k: int| 0 <= k < rest.len() && rest[k] == c;
                assert(labels[k + 1] == c);
            }
        }
    }
}

proof fn lemma_records_without_ids(
    labels: Seq<Seq<char>>,
    ids: Map<Seq<char>, Seq<char>>,
    child: Seq<char>,
    recs: Seq<Json>,
)
    requires
        forall|j: int| 0 <= j < recs.len() ==> record_id(#[trigger] recs[j]) is None,
    ensures
        records_with_id(recs).len() == 0,
        records_rows(labels, ids, child, recs) == Seq::<RowModel>::empty(),
    decreases recs.len(),
{
    if recs.len() > 0 {
        assert(record_id(recs[recs.len() - 1]) is None);
        lemma_records_without_ids(labels, ids, child, recs.drop_last());
        assert(records_rows(labels, ids, child, recs) =~= records_rows(
            labels,
            ids,
            child,
            recs.drop_last(),
        ));
    }
}

proof fn lemma_entities_without_ids(
    m: AdapterModel,
    ids: Map<Seq<char>, Seq<char>>,
    es: Seq<(Seq<char>, Json)>,
)
    requires
        forall|i: int, j: int|
            0 <= i < es.len() && 0 <= j < records_of(es[i].1).len() ==> record_id(
                #[trigger] records_of(es[i].1)[j],
            ) is None,
    ensures
        node_statements(m, es).len() == 0,
        entities_rows(m.labels, ids, es).len() == 0,
    decreases es.len(),
{
    if es.len() > 0 {
        let last = es.len() - 1;
        let recs = records_of(es[last].1);
        assert forall|j: int| 0 <= j < recs.len() implies record_id(#[trigger] recs[j]) is None by {
            assert(record_id(records_of(es[last].1)[j]) is None);
        }
        lemma_records_without_ids(
            m.labels,
            ids,
            canonical_label(m.labels, es.last().0),
            recs,
        );
        let front = es.drop_last();
        assert forall|i: int, j: int|
            0 <= i < front.len() && 0 <= j < records_of(front[i].1).len() implies record_id(
            #[trigger] records_of(front[i].1)[j],
        ) is None by {
            assert(front[i] == es[i]);
            assert(record_id(records_of(es[i].1)[j]) is None);
        }
        lemma_entities_without_ids(m, ids, front);
    }
}

/// A payload that is not an object, or in which no record carries a string
/// `id`, gives no Cypher at all.
pub proof fn law_nothing_without_ids(m: AdapterModel, payload: Json)
    requires
        payload matches Json::Object(es) ==> forall|i: int, j: int|
            0 <= i < es.len() && 0 <= j < records_of(es[i].1).len() ==> record_id(
                #[trigger] records_of(es[i].1)[j],
            ) is None,
    ensures
        queries_text(m, payload) == Seq::<char>::empty(),
{
    if let Json::Object(es) = payload {
        let ids = id_index(m.labels, es);
        lemma_entities_without_ids(m, ids, es);
        let gs = group_rows(entities_rows(m.labels, ids, es));
        assert(gs.len() == 0);
        let parts = node_statements(m, es) + Seq::new(gs.len(), |i: int| edge_statement(m, gs[i]));
        assert(parts.len() == 0);
        assert(join(parts, "\n\n"@) == Seq::<char>::empty());
    }
}

/// What one character of a string becomes in a Cypher string literal.
pub proof fn lemma_string_rule(c: char)
    ensures
        rule_for(c, string_rules()) == if c == '\\' {
            seq!['\\', '\\']
        } else if c == '"' {
            seq!['\\', '"']
        } else if c == '\n' {
            seq!['\\', 'n']
        } else if c == '\r' {
            seq!['\\', 'r']
        } else if c == '\t' {
            seq!['\\', 't']
        } else {
            seq![c]
        },
{
    reveal_strlit("\\\\");
    reveal_strlit("\\\"");
    reveal_strlit("\\n");
    reveal_strlit("\\r");
    reveal_strlit("\\t");
    reveal_with_fuel(rule_for, 6);
    let rules = string_rules();
    assert(rules.drop_first() =~= seq![('"', "\\\""@), ('\n', "\\n"@), ('\r', "\\r"@), ('\t', "\\t"@)]);
    assert(rules.drop_first().drop_first() =~= seq![('\n', "\\n"@), ('\r', "\\r"@), ('\t', "\\t"@)]);
    assert(rules.drop_first().drop_first().drop_first() =~= seq![('\r', "\\r"@), ('\t', "\\t"@)]);
    assert(rules.drop_first().drop_first().drop_first().drop_first() =~= seq![('\t', "\\t"@)]);
    assert(rules.drop_first().drop_first().drop_first().drop_first().drop_first() =~= Seq::<(char, Seq<char>)>::empty());
    assert("\\\\"@ =~= seq!['\\', '\\']);
    assert("\\\""@ =~= seq!['\\', '"']);
    assert("\\n"@ =~= seq!['\\', 'n']);
    assert("\\r"@ =~= seq!['\\', 'r']);
    assert("\\t"@ =~= seq!['\\', 't']);
}

/// Escaping read from the front: the first character's replacement, then
/// the rest escaped.
proof fn lemma_escape_front(s: Seq<char>, rules: Seq<(char, Seq<char>)>)
    requires
        s.len() > 0,
    ensures
        escape_with(s, rules) == rule_for(s[0], rules) + escape_with(s.drop_first(), rules),
    decreases s.len(),
{
    if s.len() == 1 {
        assert(s.drop_last() =~= Seq::<char>::empty());
        assert(s.drop_first() =~= Seq::<char>::empty());
        assert(escape_with(s.drop_last(), rules) == Seq::<char>::empty());
        assert(s.last() == s[0]);
        assert(escape_with(s, rules) =~= rule_for(s[0], rules));
    } else {
        lemma_escape_front(s.drop_last(), rules);
        assert(s.drop_last().drop_first() =~= s.drop_first().drop_last());
        assert(s.drop_last()[0] == s[0]);
        assert(s.drop_first().last() == s.last());
        assert(escape_with(s, rules) =~= rule_for(s[0], rules) + escape_with(s.drop_first(), rules));
    }
}

/// Two escaped characters that begin the same text are the same character,
/// and what follows them is the same.
proof fn lemma_escaped_prefix(a: char, b: char, t1: Seq<char>, t2: Seq<char>)
    requires
        rule_for(a, string_rules()) + t1 == rule_for(b, string_rules()) + t2,
    ensures
        a == b,
        t1 == t2,
{
    lemma_string_rule(a);
    lemma_string_rule(b);
    let ra = rule_for(a, string_rules());
    let rb = rule_for(b, string_rules());
    let e = ra + t1;
    assert(e[0] == ra[0]);
    assert(e[0] == (rb + t2)[0]);
    if ra.len() == 2 {
        assert(e[1] == ra[1]);
        assert(e[1] == (rb + t2)[1]);
    }
    assert(ra =~= rb);
    assert(t1 =~= e.skip(ra.len() as int));
    assert(t2 =~= (rb + t2).skip(rb.len() as int));
}

/// Escaping a string for a Cypher string literal loses nothing: two strings
/// that escape to the same text are the same string.
pub proof fn law_string_escape_is_injective(s1: Seq<char>, s2: Seq<char>)
    requires
        escape_with(s1, string_rules()) == escape_with(s2, string_rules()),
    ensures
        s1 == s2,
    decreases s1.len(),
{
    let rules = string_rules();
    if s1.len() == 0 {
        if s2.len() > 0 {
            lemma_escape_front(s2, rules);
            lemma_string_rule(s2[0]);
        }
    } else if s2.len() == 0 {
        lemma_escape_front(s1, rules);
        lemma_string_rule(s1[0]);
    } else {
        lemma_escape_front(s1, rules);
        lemma_escape_front(s2, rules);
        lemma_escaped_prefix(
            s1[0],
            s2[0],
            escape_with(s1.drop_first(), rules),
            escape_with(s2.drop_first(), rules),
        );
        law_string_escape_is_injective(s1.drop_first(), s2.drop_first());
        assert(s1 =~= seq![s1[0]] + s1.drop_first());
        assert(s2 =~= seq![s2[0]] + s2.drop_first());
    }
}

proof fn lemma_group_index(gs: Seq<GroupModel>, key: (Seq<char>, Seq<char>))
    ensures
        group_index(gs, key) >= 0 ==> group_index(gs, key) < gs.len() && gs[group_index(gs, key)].0 == key,
        group_index(gs, key) < 0 ==> forall|i: int| 0 <= i < gs.len() ==> (#[trigger] gs[i]).0 != key,
    decreases gs.len(),
{
    if gs.len() > 0 && gs[0].0 != key {
        let t = gs.drop_first();
        lemma_group_index(t, key);
        if group_index(t, key) < 0 {
            assert forall|i: int| 0 <= i < gs.len() implies (#[trigger] gs[i]).0 != key by {
                if i > 0 {
                    assert(gs[i] == t[i - 1]);
                }
            }
        } else {
            assert(gs[group_index(gs, key)] == t[group_index(t, key)]);
        }
    }
}

/// No two groups share a pair of labels.
pub open spec fn distinct_groups(gs: Seq<GroupModel>) -> bool {
    forall|i: int, j: int| 0 <= i < j < gs.len() ==> (#[trigger] gs[i]).0 != (#[trigger] gs[j]).0
}

/// The edge `row` is held by the group of its pair of labels.
pub open spec fn row_grouped(gs: Seq<GroupModel>, row: RowModel) -> bool {
    exists|k: int| 0 <= k < gs.len() && (#[trigger] gs[k]).0 == (row.0, row.1) && gs[k].1.contains((row.2, row.3))
}

/// Edges are grouped by their pair of labels, one `UNWIND` per pair: no two
/// groups share a pair, and every edge is held by the group of its pair.
pub proof fn law_edge_groups(rows: Seq<RowModel>)
    ensures
        distinct_groups(group_rows(rows)),
        forall|i: int| 0 <= i < rows.len() ==> row_grouped(group_rows(rows), #[trigger] rows[i]),
    decreases rows.len(),
{
    if rows.len() > 0 {
        let front = rows.drop_last();
        law_edge_groups(front);
        let gs = group_rows(front);
        let row = rows.last();
        let key = (row.0, row.1);
        let pair = (row.2, row.3);
        lemma_group_index(gs, key);
        let k = group_index(gs, key);
        let out = add_row(gs, row);
        assert(out == group_rows(rows));
        if k >= 0 {
            assert(out == gs.update(k, (key, gs[k].1.push(pair))));
            assert forall|i: int, j: int| 0 <= i < j < out.len() implies (#[trigger] out[i]).0 != (#[trigger] out[j]).0 by {
                assert(out[i].0 == gs[i].0);
                assert(out[j].0 == gs[j].0);
            }
            assert(out[k].1.last() == pair);
            assert forall|i: int| 0 <= i < rows.len() implies row_grouped(out, #[trigger] rows[i]) by {
                if i < front.len() {
                    assert(rows[i] == front[i]);
                    let r = front[i];
                    let g = choose|g: int| 0 <= g < gs.len() && (#[trigger] gs[g]).0 == (r.0, r.1) && gs[g].1.contains((r.2, r.3));
                    if g == k {
                        let w = choose|w: int| 0 <= w < gs[g].1.len() && gs[g].1[w] == (r.2, r.3);
                        assert(out[g].1[w] == (r.2, r.3));
                    } else {
                        assert(out[g] == gs[g]);
                    }
                } else {
                    assert(out[k].1[out[k].1.len() - 1] == pair);
                }
            }
        } else {
            assert(out == gs.push((key, seq![pair])));
            assert forall|i: int, j: int| 0 <= i < j < out.len() implies (#[trigger] out[i]).0 != (#[trigger] out[j]).0 by {
                if j == gs.len() {
                    assert(out[i] == gs[i]);
                } else {
                    assert(out[i] == gs[i]);
                    assert(out[j] == gs[j]);
                }
            }
            assert forall|i: int| 0 <= i < rows.len() implies row_grouped(out, #[trigger] rows[i]) by {
                if i < front.len() {
                    assert(rows[i] == front[i]);
                    let r = front[i];
                    let g = choose|g: int| 0 <= g < gs.len() && (#[trigger] gs[g]).0 == (r.0, r.1) && gs[g].1.contains((r.2, r.3));
                    assert(out[g] == gs[g]);
                } else {
                    let g = gs.len() as int;
                    assert(out[g].1[0] == pair);
                }
            }
        }
    }
}

/// The relationship that names an edge between two labels is the name of the
/// first ontology edge between them, and `RELATED_TO` where the ontology has
/// none.
pub proof fn law_relationship_is_first_edge(o: OntologyModel, from: Seq<char>, to: Seq<char>)
    ensures
        forall|i: int|
            0 <= i < o.edges.len() && o.edges[i].from == from && o.edges[i].to == to && (forall|j: int|
                0 <= j < i ==> !(#[trigger] o.edges[j].from == from && o.edges[j].to == to))
                ==> relationship_of(adapter_of(o).rels, from, to) == #[trigger] o.edges[i].name,
        (forall|i: int| 0 <= i < o.edges.len() ==> !(#[trigger] o.edges[i].from == from && o.edges[i].to == to))
            ==> relationship_of(adapter_of(o).rels, from, to) == "RELATED_TO"@,
{
    let rels = adapter_of(o).rels;
    lemma_relationship_of(rels, from, to);
    assert forall|i: int|
        0 <= i < o.edges.len() && o.edges[i].from == from && o.edges[i].to == to && (forall|j: int|
            0 <= j < i ==> !(#[trigger] o.edges[j].from == from && o.edges[j].to == to))
            implies relationship_of(rels, from, to) == #[trigger] o.edges[i].name by {
        assert(rels[i] == (o.edges[i].from, o.edges[i].to, o.edges[i].name));
        assert forall|j: int| 0 <= j < i implies !(#[trigger] rels[j].0 == from && rels[j].1 == to) by {
            assert(rels[j] == (o.edges[j].from, o.edges[j].to, o.edges[j].name));
        }
        assert(relationship_of(rels, from, to) == rels[i].2);
    }
    if forall|i: int| 0 <= i < o.edges.len() ==> !(#[trigger] o.edges[i].from == from && o.edges[i].to == to) {
        assert forall|j: int| 0 <= j < rels.len() implies !(#[trigger] rels[j].0 == from && rels[j].1 == to) by {
            assert(rels[j] == (o.edges[j].from, o.edges[j].to, o.edges[j].name));
        }
    }
}

/// `relationship_of` gives the name of the first entry for the pair, or
/// `RELATED_TO` when there is none.
proof fn lemma_relationship_of(rels: Seq<(Seq<char>, Seq<char>, Seq<char>)>, from: Seq<char>, to: Seq<char>)
    ensures
        forall|i: int|
            0 <= i < rels.len() && rels[i].0 == from && rels[i].1 == to && (forall|j: int|
                0 <= j < i ==> !(#[trigger] rels[j].0 == from && rels[j].1 == to)) ==> relationship_of(
                rels,
                from,
                to,
            ) == #[trigger] rels[i].2,
        (forall|j: int| 0 <= j < rels.len() ==> !(#[trigger] rels[j].0 == from && rels[j].1 == to))
            ==> relationship_of(rels, from, to) == "RELATED_TO"@,
    decreases rels.len(),
{
    if rels.len() > 0 {
        let t = rels.drop_first();
        lemma_relationship_of(t, from, to);
        assert forall|i: int|
            0 <= i < rels.len() && rels[i].0 == from && rels[i].1 == to && (forall|j: int|
                0 <= j < i ==> !(#[trigger] rels[j].0 == from && rels[j].1 == to)) implies relationship_of(
            rels,
            from,
            to,
        ) == #[trigger] rels[i].2 by {
            if i > 0 {
                assert(!(rels[0].0 == from && rels[0].1 == to));
                assert(t[i - 1] == rels[i]);
                assert forall|j: int| 0 <= j < i - 1 implies !(#[trigger] t[j].0 == from && t[j].1 == to) by {
                    assert(t[j] == rels[j + 1]);
                }
            }
        }
        if forall|j: int| 0 <= j < rels.len() ==> !(#[trigger] rels[j].0 == from && rels[j].1 == to) {
            assert(!(rels[0].0 == from && rels[0].1 == to));
            assert forall|j: int| 0 <= j < t.len() implies !(#[trigger] t[j].0 == from && t[j].1 == to) by {
                assert(t[j] == rels[j + 1]);
            }
        }
    }
}

/// Each statement that a payload gives ends in `;`, so sending each without
/// its last character sends exactly the statement it is.
pub proof fn law_statements_end_with_semicolon(m: AdapterModel, payload: Json)
    ensures
        forall|i: int|
            0 <= i < query_blocks(m, payload).len() ==> (#[trigger] query_blocks(m, payload)[i]).len() > 0
                && query_blocks(m, payload)[i].last() == ';',
{
    reveal_strlit(" { id: record.id })\nON CREATE SET n += record\nON MATCH SET n += record;");
    reveal_strlit("]->(b);");
    if let Json::Object(es) = payload {
        lemma_node_statements_end(m, es);
        let ids = id_index(m.labels, es);
        let gs = group_rows(entities_rows(m.labels, ids, es));
        let a = node_statements(m, es);
        let b = Seq::new(gs.len(), |i: int| edge_statement(m, gs[i]));
        assert forall|i: int| 0 <= i < (a + b).len() implies (#[trigger] (a + b)[i]).len() > 0 && (a
            + b)[i].last() == ';' by {
            if i >= a.len() {
                assert((a + b)[i] == edge_statement(m, gs[i - a.len()]));
                let tail = "]->(b);"@;
                assert(tail.last() == ';');
            } else {
                assert((a + b)[i] == a[i]);
            }
        }
    }
}

proof fn lemma_node_statements_end(m: AdapterModel, es: Seq<(Seq<char>, Json)>)
    ensures
        forall|i: int|
            0 <= i < node_statements(m, es).len() ==> (#[trigger] node_statements(m, es)[i]).len() > 0
                && node_statements(m, es)[i].last() == ';',
    decreases es.len(),
{
    reveal_strlit(" { id: record.id })\nON CREATE SET n += record\nON MATCH SET n += record;");
    if es.len() > 0 {
        lemma_node_statements_end(m, es.drop_last());
        let tail = " { id: record.id })\nON CREATE SET n += record\nON MATCH SET n += record;"@;
        assert(tail.last() == ';');
        let before = node_statements(m, es.drop_last());
        let out = node_statements(m, es);
        assert forall|i: int| 0 <= i < out.len() implies (#[trigger] out[i]).len() > 0 && out[i].last()
            == ';' by {
            if i < before.len() {
                assert(out[i] == before[i]);
            }
        }
    }
}

/// The text of a Cypher string literal read back: a `\` and the character
/// after it stand for that character (`n`, `r` and `t` for a line feed, a
/// carriage return and a tab).
pub open spec fn unescape_literal(e: Seq<char>) -> Seq<char>
    decreases e.len(),
{
    if e.len() == 0 {
        Seq::empty()
    } else if e[0] == '\\' && e.len() >= 2 {
        let c = e[1];
        let d = if c == 'n' {
            '\n'
        } else if c == 'r' {
            '\r'
        } else if c == 't' {
            '\t'
        } else {
            c
        };
        seq![d] + unescape_literal(e.skip(2))
    } else {
        seq![e[0]] + unescape_literal(e.drop_first())
    }
}

proof fn lemma_unescape_rule(c: char, t: Seq<char>)
    ensures
        unescape_literal(rule_for(c, string_rules()) + t) == seq![c] + unescape_literal(t),
{
    lemma_string_rule(c);
    let e = rule_for(c, string_rules()) + t;
    if e[0] == '\\' {
        assert(e.skip(2) =~= t);
    } else {
        assert(e.drop_first() =~= t);
    }
}

proof fn lemma_rule_scan(c: char)
    ensures
        scan_from(Quote::Double, rule_for(c, string_rules())) == Quote::Double,
        forall|j: int|
            0 <= j <= rule_for(c, string_rules()).len() ==> scan_from(
                Quote::Double,
                #[trigger] rule_for(c, string_rules()).take(j),
            ) != Quote::Plain,
        forall|j: int|
            0 <= j < rule_for(c, string_rules()).len() ==> (#[trigger] rule_for(c, string_rules())[j])
                != '\n' && rule_for(c, string_rules())[j] != '\r' && rule_for(c, string_rules())[j] != '\t',
{
    lemma_string_rule(c);
    let r = rule_for(c, string_rules());
    assert(r.take(0) =~= Seq::<char>::empty());
    assert(r.take(r.len() as int) =~= r);
    let e = Seq::<char>::empty();
    assert(scan_from(Quote::Double, e) == Quote::Double);
    if r.len() == 2 {
        let one = seq!['\\'];
        assert(one.drop_last() =~= e);
        assert(scan_from(Quote::Double, one) == Quote::DoubleEscaped);
        assert(r.take(1) =~= one);
        assert(r.drop_last() =~= one);
        assert(scan_from(Quote::Double, r) == Quote::Double);
        assert forall|j: int| 0 <= j <= r.len() implies scan_from(Quote::Double, #[trigger] r.take(j))
            != Quote::Plain by {
            if j == 0 {
                assert(r.take(0) =~= e);
            } else if j == 2 {
                assert(r.take(2) =~= r);
            }
        }
    } else {
        assert(r.drop_last() =~= e);
        assert(c != '\\' && c != '"');
        assert(scan_from(Quote::Double, r) == Quote::Double);
        assert forall|j: int| 0 <= j <= r.len() implies scan_from(Quote::Double, #[trigger] r.take(j))
            != Quote::Plain by {
            if j == 0 {
                assert(r.take(0) =~= e);
            } else {
                assert(r.take(1) =~= r);
            }
        }
    }
}

/// A string escaped for a Cypher string literal cannot end the literal
/// early, holds no raw line feed, carriage return or tab, and reads back as
/// the string: scanned from inside a `"` quote it never leaves the quote,
/// and ends where a closing `"` ends it.
pub proof fn law_string_literal_is_safe(s: Seq<char>)
    ensures
        forall|k: int|
            0 <= k < escape_with(s, string_rules()).len() ==> (#[trigger] escape_with(s, string_rules())[k])
                != '\n' && escape_with(s, string_rules())[k] != '\r' && escape_with(s, string_rules())[k]
                != '\t',
        forall|k: int|
            0 <= k <= escape_with(s, string_rules()).len() ==> scan_from(
                Quote::Double,
                #[trigger] escape_with(s, string_rules()).take(k),
            ) != Quote::Plain,
        scan_from(Quote::Double, escape_with(s, string_rules())) == Quote::Double,
        unescape_literal(escape_with(s, string_rules())) == s,
    decreases s.len(),
{
    let rules = string_rules();
    let e = escape_with(s, rules);
    if s.len() == 0 {
        assert(e.take(0) =~= e);
        assert(unescape_literal(e) == s);
    } else {
        let front = s.drop_last();
        law_string_literal_is_safe(front);
        let a = escape_with(front, rules);
        let r = rule_for(s.last(), rules);
        assert(e == a + r);
        lemma_rule_scan(s.last());
        lemma_scan_concat(Quote::Double, a, r);
        assert forall|k: int| 0 <= k < e.len() implies (#[trigger] e[k]) != '\n' && e[k] != '\r' && e[k]
            != '\t' by {
            if k < a.len() {
                assert(e[k] == a[k]);
            } else {
                assert(e[k] == r[k - a.len()]);
            }
        }
        assert forall|k: int| 0 <= k <= e.len() implies scan_from(Quote::Double, #[trigger] e.take(k))
            != Quote::Plain by {
            if k <= a.len() {
                assert(e.take(k) =~= a.take(k));
            } else {
                let j = k - a.len();
                assert(e.take(k) =~= a + r.take(j));
                lemma_scan_concat(Quote::Double, a, r.take(j));
                assert(a.take(a.len() as int) =~= a);
            }
        }
        assert(a.take(a.len() as int) =~= a);
        // Reading back, from the front.
        lemma_escape_front(s, rules);
        law_string_literal_is_safe(s.drop_first());
        lemma_unescape_rule(s[0], escape_with(s.drop_first(), rules));
        assert(s =~= seq![s[0]] + s.drop_first());
    }
}

} // verus!
