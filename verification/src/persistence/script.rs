//! The generated Cypher, split back into its statements: what the
//! transaction endpoint is sent for a payload.

use vstd::prelude::*;

use crate::json::Json;
use crate::neo4j::{
    lemma_scan_concat, lemma_split_pieces_len, nonblank_trimmed, quote_step, scan_from, split_pieces,
    statements_of, statement_object, statements_body_model, request_body_model, trim, trim_end, trim_start, white_space, without_statement_end, Quote,
};
use crate::persistence::cypher::{
    backtick_rules, cypher_key_text, cypher_list, cypher_member, cypher_members, cypher_value,
    edge_pair_text, edge_statement, id_rules, is_valid_identifier, node_statement, relationship_of,
    sanitized_identifier, string_rules, AdapterModel, GroupModel, canonical_label, entities_rows,
    group_rows, id_index, node_statements, query_blocks, queries_text, records_of, records_with_id,
};
use crate::persistence::laws::{lemma_string_rule, law_sanitized_identifier_is_valid};
use crate::text::{escape_with, is_ident_char, join, rule_for};

verus! {

/// Text in which no `;` ends a statement, when it is scanned from `q`.
pub open spec fn splitless_from(q: Quote, s: Seq<char>) -> bool
    decreases s.len(),
{
    if s.len() == 0 {
        true
    } else {
        splitless_from(q, s.drop_last()) && !(s.last() == ';' && scan_from(q, s.drop_last())
            == Quote::Plain)
    }
}

/// Text that opens no quote and holds no `;`.
pub open spec fn quote_free(s: Seq<char>) -> bool {
    forall|k: int|
        0 <= k < s.len() ==> #[trigger] s[k] != '"' && s[k] != '\'' && s[k] != '`' && s[k] != ';'
}

/// Text that, read from outside any quote, ends outside any quote and has
/// no `;` that ends a statement.
pub open spec fn closed(s: Seq<char>) -> bool {
    scan_from(Quote::Plain, s) == Quote::Plain && splitless_from(Quote::Plain, s)
}

pub proof fn lemma_splitless_concat(q: Quote, x: Seq<char>, y: Seq<char>)
    ensures
        splitless_from(q, x + y) == (splitless_from(q, x) && splitless_from(scan_from(q, x), y)),
    decreases y.len(),
{
    if y.len() == 0 {
        assert(x + y =~= x);
    } else {
        lemma_splitless_concat(q, x, y.drop_last());
        assert((x + y).drop_last() =~= x + y.drop_last());
        assert((x + y).last() == y.last());
        lemma_scan_concat(q, x, y.drop_last());
    }
}

pub proof fn lemma_closed_concat(x: Seq<char>, y: Seq<char>)
    requires
        closed(x),
        closed(y),
    ensures
        closed(x + y),
{
    lemma_splitless_concat(Quote::Plain, x, y);
    lemma_scan_concat(Quote::Plain, x, y);
}

pub proof fn lemma_quote_free_closed(s: Seq<char>)
    requires
        quote_free(s),
    ensures
        closed(s),
    decreases s.len(),
{
    if s.len() > 0 {
        let f = s.drop_last();
        assert(quote_free(f)) by {
            assert forall|k: int| 0 <= k < f.len() implies #[trigger] f[k] != '"' && f[k] != '\'' && f[k]
                != '`' && f[k] != ';' by {
                assert(f[k] == s[k]);
            }
        }
        lemma_quote_free_closed(f);
        assert(s.last() == s[s.len() - 1]);
    }
}

/// Scanning one character.
pub proof fn lemma_scan_one(q: Quote, c: char)
    ensures
        scan_from(q, seq![c]) == quote_step(q, c),
        splitless_from(q, seq![c]) == !(c == ';' && q == Quote::Plain),
{
    let s = seq![c];
    assert(s.drop_last() =~= Seq::<char>::empty());
    assert(s.last() == c);
    assert(scan_from(q, s.drop_last()) == q);
    assert(splitless_from(q, s.drop_last()));
}

/// A replacement that, inside a `"` quote, stays inside it.
pub open spec fn double_safe(r: Seq<char>) -> bool {
    ||| (r.len() == 1 && r[0] != '\\' && r[0] != '"')
    ||| (r.len() == 2 && r[0] == '\\')
}

proof fn lemma_double_safe(r: Seq<char>)
    requires
        double_safe(r),
    ensures
        scan_from(Quote::Double, r) == Quote::Double,
        splitless_from(Quote::Double, r),
{
    if r.len() == 2 {
        assert(r =~= seq![r[0]] + seq![r[1]]);
        lemma_scan_one(Quote::Double, r[0]);
        lemma_scan_one(Quote::DoubleEscaped, r[1]);
        lemma_scan_concat(Quote::Double, seq![r[0]], seq![r[1]]);
        lemma_splitless_concat(Quote::Double, seq![r[0]], seq![r[1]]);
    } else {
        assert(r =~= seq![r[0]]);
        lemma_scan_one(Quote::Double, r[0]);
    }
}

/// Escaping with replacements that stay inside a `"` quote keeps the text
/// inside it.
pub proof fn lemma_escape_inside_double(s: Seq<char>, rules: Seq<(char, Seq<char>)>)
    requires
        forall|c: char| double_safe(#[trigger] rule_for(c, rules)),
    ensures
        scan_from(Quote::Double, escape_with(s, rules)) == Quote::Double,
        splitless_from(Quote::Double, escape_with(s, rules)),
    decreases s.len(),
{
    if s.len() > 0 {
        lemma_escape_inside_double(s.drop_last(), rules);
        let a = escape_with(s.drop_last(), rules);
        let r = rule_for(s.last(), rules);
        lemma_double_safe(r);
        lemma_splitless_concat(Quote::Double, a, r);
        lemma_scan_concat(Quote::Double, a, r);
    }
}

pub proof fn lemma_id_rule(c: char)
    ensures
        rule_for(c, id_rules()) == if c == '\\' {
            seq!['\\', '\\']
        } else if c == '"' {
            seq!['\\', '"']
        } else {
            seq![c]
        },
{
    reveal_strlit("\\\\");
    reveal_strlit("\\\"");
    reveal_with_fuel(rule_for, 3);
    let rules = id_rules();
    assert(rules.drop_first() =~= seq![('"', "\\\""@)]);
    assert(rules.drop_first().drop_first() =~= Seq::<(char, Seq<char>)>::empty());
    assert("\\\\"@ =~= seq!['\\', '\\']);
    assert("\\\""@ =~= seq!['\\', '"']);
}

pub proof fn lemma_string_rules_double_safe()
    ensures
        forall|c: char| double_safe(#[trigger] rule_for(c, string_rules())),
{
    assert forall|c: char| double_safe(#[trigger] rule_for(c, string_rules())) by {
        lemma_string_rule(c);
    }
}

pub proof fn lemma_id_rules_double_safe()
    ensures
        forall|c: char| double_safe(#[trigger] rule_for(c, id_rules())),
{
    assert forall|c: char| double_safe(#[trigger] rule_for(c, id_rules())) by {
        lemma_id_rule(c);
    }
}

/// `"` + text that stays inside the quote + `"` is closed.
pub proof fn lemma_quoted_closed(e: Seq<char>)
    requires
        scan_from(Quote::Double, e) == Quote::Double,
        splitless_from(Quote::Double, e),
    ensures
        closed(seq!['"'] + e + seq!['"']),
{
    let q = seq!['"'];
    lemma_scan_one(Quote::Plain, '"');
    lemma_scan_one(Quote::Double, '"');
    lemma_splitless_concat(Quote::Plain, q, e);
    lemma_scan_concat(Quote::Plain, q, e);
    lemma_splitless_concat(Quote::Plain, q + e, q);
    lemma_scan_concat(Quote::Plain, q + e, q);
}

pub proof fn lemma_backtick_rule(c: char)
    ensures
        rule_for(c, backtick_rules()) == if c == '`' {
            seq!['`', '`']
        } else {
            seq![c]
        },
{
    reveal_strlit("``");
    reveal_with_fuel(rule_for, 2);
    let rules = backtick_rules();
    assert(rules.drop_first() =~= Seq::<(char, Seq<char>)>::empty());
    assert("``"@ =~= seq!['`', '`']);
}

/// Escaping for a backtick-quoted name stays inside the backticks.
pub proof fn lemma_escape_inside_backticks(s: Seq<char>)
    ensures
        scan_from(Quote::Backtick, escape_with(s, backtick_rules())) == Quote::Backtick,
        splitless_from(Quote::Backtick, escape_with(s, backtick_rules())),
    decreases s.len(),
{
    if s.len() > 0 {
        lemma_escape_inside_backticks(s.drop_last());
        let a = escape_with(s.drop_last(), backtick_rules());
        let r = rule_for(s.last(), backtick_rules());
        lemma_backtick_rule(s.last());
        if r.len() == 2 {
            assert(r =~= seq!['`'] + seq!['`']);
            lemma_scan_one(Quote::Backtick, '`');
            lemma_scan_one(Quote::Plain, '`');
            lemma_scan_concat(Quote::Backtick, seq!['`'], seq!['`']);
            lemma_splitless_concat(Quote::Backtick, seq!['`'], seq!['`']);
        } else {
            assert(r =~= seq![s.last()]);
            lemma_scan_one(Quote::Backtick, s.last());
        }
        lemma_splitless_concat(Quote::Backtick, a, r);
        lemma_scan_concat(Quote::Backtick, a, r);
    }
}

/// Every number in the value is written without quotes or `;`.
pub open spec fn plain_numbers(v: Json) -> bool
    decreases v, 1int,
{
    match v {
        Json::Number(n) => quote_free(n),
        Json::Array(items) => items_plain_numbers(items),
        Json::Object(members) => members_plain_numbers(members),
        _ => true,
    }
}

pub open spec fn items_plain_numbers(items: Seq<Json>) -> bool
    decreases items, 0int,
{
    if items.len() == 0 {
        true
    } else {
        items_plain_numbers(items.drop_last()) && plain_numbers(items.last())
    }
}

pub open spec fn members_plain_numbers(members: Seq<(Seq<char>, Json)>) -> bool
    decreases members, 0int,
{
    if members.len() == 0 {
        true
    } else {
        members_plain_numbers(members.drop_last()) && plain_numbers(members.last().1)
    }
}

pub proof fn lemma_items_plain_numbers(items: Seq<Json>)
    ensures
        items_plain_numbers(items) <==> forall|i: int| 0 <= i < items.len() ==> plain_numbers(#[trigger] items[i]),
    decreases items.len(),
{
    if items.len() > 0 {
        let f = items.drop_last();
        lemma_items_plain_numbers(f);
        assert forall|i: int| 0 <= i < f.len() implies f[i] == items[i] by {}
        assert(items[items.len() - 1] == items.last());
    }
}

pub proof fn lemma_members_plain_numbers(ms: Seq<(Seq<char>, Json)>)
    ensures
        members_plain_numbers(ms) <==> forall|i: int| 0 <= i < ms.len() ==> plain_numbers(#[trigger] ms[i].1),
    decreases ms.len(),
{
    if ms.len() > 0 {
        let f = ms.drop_last();
        lemma_members_plain_numbers(f);
        assert forall|i: int| 0 <= i < f.len() implies f[i] == ms[i] by {}
        assert(ms[ms.len() - 1] == ms.last());
    }
}

proof fn lemma_literal_closed(lit: Seq<char>)
    requires
        quote_free(lit),
    ensures
        closed(lit),
{
    lemma_quote_free_closed(lit);
}

pub proof fn lemma_key_closed(k: Seq<char>)
    ensures
        closed(cypher_key_text(k)),
{
    if is_valid_identifier(k) {
        assert(quote_free(k)) by {
            assert forall|i: int| 0 <= i < k.len() implies #[trigger] k[i] != '"' && k[i] != '\'' && k[i]
                != '`' && k[i] != ';' by {
                assert(is_ident_char(k[i]));
            }
        }
        lemma_quote_free_closed(k);
    } else {
        let e = escape_with(k, backtick_rules());
        lemma_escape_inside_backticks(k);
        let b = seq!['`'];
        lemma_scan_one(Quote::Plain, '`');
        lemma_scan_one(Quote::Backtick, '`');
        lemma_splitless_concat(Quote::Plain, b, e);
        lemma_scan_concat(Quote::Plain, b, e);
        lemma_splitless_concat(Quote::Plain, b + e, b);
        lemma_scan_concat(Quote::Plain, b + e, b);
    }
}

pub proof fn lemma_value_closed(v: Json)
    requires
        plain_numbers(v),
    ensures
        closed(cypher_value(v)),
    decreases v, 1int,
{
    reveal_strlit("true");
    reveal_strlit("false");
    reveal_strlit("null");
    match v {
        Json::Str(s) => {
            lemma_string_rules_double_safe();
            lemma_escape_inside_double(s, string_rules());
            lemma_quoted_closed(escape_with(s, string_rules()));
        },
        Json::Number(n) => {
            lemma_quote_free_closed(n);
        },
        Json::Bool(b) => {
            if b {
                lemma_literal_closed("true"@);
            } else {
                lemma_literal_closed("false"@);
            }
        },
        Json::Null => {
            lemma_literal_closed("null"@);
        },
        Json::Array(items) => {
            lemma_list_closed(items);
            lemma_scan_one(Quote::Plain, '[');
            lemma_scan_one(Quote::Plain, ']');
            lemma_closed_concat(seq!['['], cypher_list(items));
            lemma_closed_concat(seq!['['] + cypher_list(items), seq![']']);
        },
        Json::Object(ms) => {
            lemma_members_closed(ms);
            lemma_scan_one(Quote::Plain, '{');
            lemma_scan_one(Quote::Plain, '}');
            lemma_closed_concat(seq!['{'], cypher_members(ms));
            lemma_closed_concat(seq!['{'] + cypher_members(ms), seq!['}']);
        },
    }
}

pub proof fn lemma_list_closed(items: Seq<Json>)
    requires
        items_plain_numbers(items),
    ensures
        closed(cypher_list(items)),
    decreases items, 0int,
{
    reveal_strlit(", ");
    if items.len() == 0 {
        lemma_quote_free_closed(Seq::<char>::empty());
    } else if items.len() == 1 {
        assert(items.drop_last().len() == 0);
        assert(items.last() == items[0]);
        lemma_value_closed(items[0]);
    } else {
        lemma_list_closed(items.drop_last());
        lemma_value_closed(items.last());
        lemma_literal_closed(", "@);
        lemma_closed_concat(cypher_list(items.drop_last()), ", "@);
        lemma_closed_concat(cypher_list(items.drop_last()) + ", "@, cypher_value(items.last()));
    }
}

pub proof fn lemma_members_closed(ms: Seq<(Seq<char>, Json)>)
    requires
        members_plain_numbers(ms),
    ensures
        closed(cypher_members(ms)),
    decreases ms, 0int,
{
    reveal_strlit(", ");
    reveal_strlit(": ");
    if ms.len() == 0 {
        lemma_quote_free_closed(Seq::<char>::empty());
    } else {
        let last = if ms.len() == 1 { ms[0] } else { ms.last() };
        if ms.len() == 1 {
            assert(ms.drop_last().len() == 0);
            assert(ms.last() == ms[0]);
        } else {
            lemma_members_closed(ms.drop_last());
        }
        assert(decreases_to!(ms => ms[ms.len() - 1]));
        assert(ms[ms.len() - 1] == last);
        lemma_value_closed(last.1);
        lemma_key_closed(last.0);
        lemma_literal_closed(": "@);
        lemma_closed_concat(cypher_key_text(last.0), ": "@);
        lemma_closed_concat(cypher_key_text(last.0) + ": "@, cypher_value(last.1));
        if ms.len() > 1 {
            lemma_literal_closed(", "@);
            let m = cypher_member(last.0, cypher_value(last.1));
            lemma_closed_concat(cypher_members(ms.drop_last()), ", "@);
            lemma_closed_concat(cypher_members(ms.drop_last()) + ", "@, m);
        }
    }
}

/// A statement body that neither starts nor ends with white space.
pub open spec fn well_ended(s: Seq<char>) -> bool {
    s.len() > 0 && !white_space(s[0]) && !white_space(s.last())
}

/// A generated statement: a closed, well-ended body and the `;` that ends it.
pub open spec fn good_statement(b: Seq<char>) -> bool {
    &&& b.len() > 0
    &&& b.last() == ';'
    &&& closed(b.drop_last())
    &&& well_ended(b.drop_last())
}

proof fn lemma_opens_double(lit: Seq<char>)
    requires
        lit.len() > 0,
        quote_free(lit.drop_last()),
        lit.last() == '"',
    ensures
        scan_from(Quote::Plain, lit) == Quote::Double,
        splitless_from(Quote::Plain, lit),
{
    lemma_quote_free_closed(lit.drop_last());
    assert(lit =~= lit.drop_last() + seq!['"']);
    lemma_scan_one(Quote::Plain, '"');
    lemma_scan_concat(Quote::Plain, lit.drop_last(), seq!['"']);
    lemma_splitless_concat(Quote::Plain, lit.drop_last(), seq!['"']);
}

proof fn lemma_closes_double(lit: Seq<char>)
    requires
        lit.len() > 0,
        lit[0] == '"',
        quote_free(lit.drop_first()),
    ensures
        scan_from(Quote::Double, lit) == Quote::Plain,
        splitless_from(Quote::Double, lit),
{
    lemma_quote_free_closed(lit.drop_first());
    assert(lit =~= seq!['"'] + lit.drop_first());
    lemma_scan_one(Quote::Double, '"');
    lemma_scan_concat(Quote::Double, seq!['"'], lit.drop_first());
    lemma_splitless_concat(Quote::Double, seq!['"'], lit.drop_first());
}

proof fn lemma_reopens_double(lit: Seq<char>)
    requires
        lit.len() >= 2,
        lit[0] == '"',
        lit.last() == '"',
        quote_free(lit.drop_last().drop_first()),
    ensures
        scan_from(Quote::Double, lit) == Quote::Double,
        splitless_from(Quote::Double, lit),
{
    let a = lit.drop_last();
    assert(a[0] == '"');
    lemma_closes_double(a);
    assert(lit =~= a + seq!['"']);
    lemma_scan_one(Quote::Plain, '"');
    lemma_scan_concat(Quote::Double, a, seq!['"']);
    lemma_splitless_concat(Quote::Double, a, seq!['"']);
}

pub proof fn lemma_pair_closed(p: (Seq<char>, Seq<char>))
    ensures
        closed(edge_pair_text(p)),
{
    reveal_strlit("{childId: \"");
    reveal_strlit("\", parentId: \"");
    reveal_strlit("\"}");
    let l1 = "{childId: \""@;
    let l2 = "\", parentId: \""@;
    let l3 = "\"}"@;
    assert(l1.drop_last().len() == l1.len() - 1);
    lemma_opens_double(l1);
    lemma_reopens_double(l2);
    lemma_closes_double(l3);
    lemma_id_rules_double_safe();
    let e0 = escape_with(p.0, id_rules());
    let e1 = escape_with(p.1, id_rules());
    lemma_escape_inside_double(p.0, id_rules());
    lemma_escape_inside_double(p.1, id_rules());
    let q = Quote::Plain;
    lemma_scan_concat(q, l1, e0);
    lemma_splitless_concat(q, l1, e0);
    lemma_scan_concat(q, l1 + e0, l2);
    lemma_splitless_concat(q, l1 + e0, l2);
    lemma_scan_concat(q, l1 + e0 + l2, e1);
    lemma_splitless_concat(q, l1 + e0 + l2, e1);
    lemma_scan_concat(q, l1 + e0 + l2 + e1, l3);
    lemma_splitless_concat(q, l1 + e0 + l2 + e1, l3);
}

pub proof fn lemma_join_closed(parts: Seq<Seq<char>>, sep: Seq<char>)
    requires
        closed(sep),
        forall|i: int| 0 <= i < parts.len() ==> closed(#[trigger] parts[i]),
    ensures
        closed(join(parts, sep)),
    decreases parts.len(),
{
    if parts.len() == 0 {
        lemma_quote_free_closed(Seq::<char>::empty());
    } else if parts.len() == 1 {
        assert(closed(parts[0]));
    } else {
        let f = parts.drop_last();
        assert forall|i: int| 0 <= i < f.len() implies closed(#[trigger] f[i]) by {
            assert(f[i] == parts[i]);
        }
        lemma_join_closed(f, sep);
        assert(closed(parts[parts.len() - 1]));
        lemma_closed_concat(join(f, sep), sep);
        lemma_closed_concat(join(f, sep) + sep, parts.last());
    }
}

pub proof fn lemma_sanitized_closed(s: Seq<char>)
    ensures
        closed(sanitized_identifier(s)),
        sanitized_identifier(s).len() > 0,
{
    law_sanitized_identifier_is_valid(s);
    let t = sanitized_identifier(s);
    assert(quote_free(t)) by {
        assert forall|i: int| 0 <= i < t.len() implies #[trigger] t[i] != '"' && t[i] != '\'' && t[i] != '`'
            && t[i] != ';' by {
            assert(is_ident_char(t[i]));
        }
    }
    lemma_quote_free_closed(t);
}

pub proof fn lemma_node_statement_good(label: Seq<char>, recs: Seq<Json>)
    requires
        items_plain_numbers(recs),
    ensures
        good_statement(node_statement(label, recs)),
{
    reveal_strlit("UNWIND [");
    reveal_strlit("] AS record\nMERGE (n:");
    reveal_strlit(" { id: record.id })\nON CREATE SET n += record\nON MATCH SET n += record;");
    let a = "UNWIND ["@;
    let b = "] AS record\nMERGE (n:"@;
    let t = " { id: record.id })\nON CREATE SET n += record\nON MATCH SET n += record;"@;
    let l = cypher_list(recs);
    let n = sanitized_identifier(label);
    lemma_list_closed(recs);
    lemma_sanitized_closed(label);
    lemma_literal_closed(a);
    lemma_literal_closed(b);
    lemma_literal_closed(t.drop_last());
    let head = a + l + b + n;
    lemma_closed_concat(a, l);
    lemma_closed_concat(a + l, b);
    lemma_closed_concat(a + l + b, n);
    lemma_closed_concat(head, t.drop_last());
    let st = node_statement(label, recs);
    assert(st == head + t);
    assert(st.drop_last() =~= head + t.drop_last());
    assert(st.last() == t.last());
    assert((head + t.drop_last())[0] == a[0]);
    assert((head + t.drop_last()).last() == t.drop_last().last());
}

pub proof fn lemma_edge_statement_good(m: AdapterModel, g: GroupModel)
    ensures
        good_statement(edge_statement(m, g)),
{
    reveal_strlit("UNWIND [");
    reveal_strlit(", ");
    reveal_strlit("] AS edge\nMATCH (a:");
    reveal_strlit(" { id: edge.childId }),\n(b:");
    reveal_strlit(" { id: edge.parentId })\nMERGE (a)-[:");
    reveal_strlit("]->(b);");
    let a = "UNWIND ["@;
    let e1 = "] AS edge\nMATCH (a:"@;
    let e2 = " { id: edge.childId }),\n(b:"@;
    let e3 = " { id: edge.parentId })\nMERGE (a)-[:"@;
    let t = "]->(b);"@;
    let pairs = Seq::new(g.1.len(), |i: int| edge_pair_text(g.1[i]));
    assert forall|i: int| 0 <= i < pairs.len() implies closed(#[trigger] pairs[i]) by {
        lemma_pair_closed(g.1[i]);
    }
    lemma_literal_closed(", "@);
    lemma_join_closed(pairs, ", "@);
    let j = join(pairs, ", "@);
    let n0 = sanitized_identifier(g.0.0);
    let n1 = sanitized_identifier(g.0.1);
    let n2 = sanitized_identifier(relationship_of(m.rels, g.0.0, g.0.1));
    lemma_sanitized_closed(g.0.0);
    lemma_sanitized_closed(g.0.1);
    lemma_sanitized_closed(relationship_of(m.rels, g.0.0, g.0.1));
    lemma_literal_closed(a);
    lemma_literal_closed(e1);
    lemma_literal_closed(e2);
    lemma_literal_closed(e3);
    lemma_literal_closed(t.drop_last());
    lemma_closed_concat(a, j);
    lemma_closed_concat(a + j, e1);
    lemma_closed_concat(a + j + e1, n0);
    lemma_closed_concat(a + j + e1 + n0, e2);
    lemma_closed_concat(a + j + e1 + n0 + e2, n1);
    lemma_closed_concat(a + j + e1 + n0 + e2 + n1, e3);
    lemma_closed_concat(a + j + e1 + n0 + e2 + n1 + e3, n2);
    let head = a + j + e1 + n0 + e2 + n1 + e3 + n2;
    lemma_closed_concat(head, t.drop_last());
    let st = edge_statement(m, g);
    assert(st == head + t);
    assert(st.drop_last() =~= head + t.drop_last());
    assert(st.last() == t.last());
    assert((head + t.drop_last())[0] == a[0]);
    assert((head + t.drop_last()).last() == t.drop_last().last());
}

proof fn lemma_records_with_id_plain(recs: Seq<Json>)
    requires
        forall|k: int| 0 <= k < recs.len() ==> plain_numbers(#[trigger] recs[k]),
    ensures
        forall|j: int| 0 <= j < records_with_id(recs).len() ==> plain_numbers(#[trigger] records_with_id(recs)[j]),
    decreases recs.len(),
{
    if recs.len() > 0 {
        let f = recs.drop_last();
        assert forall|k: int| 0 <= k < f.len() implies plain_numbers(#[trigger] f[k]) by {
            assert(f[k] == recs[k]);
        }
        lemma_records_with_id_plain(f);
        let before = records_with_id(f);
        assert(plain_numbers(recs[recs.len() - 1]));
        assert forall|j: int| 0 <= j < records_with_id(recs).len() implies plain_numbers(#[trigger] records_with_id(recs)[j]) by {
            if j < before.len() {
                assert(records_with_id(recs)[j] == before[j]);
            }
        }
    }
}

proof fn lemma_records_of_plain(v: Json)
    requires
        plain_numbers(v),
    ensures
        forall|k: int| 0 <= k < records_of(v).len() ==> plain_numbers(#[trigger] records_of(v)[k]),
{
    if let Json::Array(items) = v {
        lemma_items_plain_numbers(items);
    }
}

proof fn lemma_node_statements_good(m: AdapterModel, es: Seq<(Seq<char>, Json)>)
    requires
        forall|i: int| 0 <= i < es.len() ==> plain_numbers(#[trigger] es[i].1),
    ensures
        forall|i: int| 0 <= i < node_statements(m, es).len() ==> good_statement(#[trigger] node_statements(m, es)[i]),
    decreases es.len(),
{
    if es.len() > 0 {
        let f = es.drop_last();
        assert forall|i: int| 0 <= i < f.len() implies plain_numbers(#[trigger] f[i].1) by {
            assert(f[i] == es[i]);
        }
        lemma_node_statements_good(m, f);
        let last = es[es.len() - 1];
        assert(last == es.last());
        lemma_records_of_plain(last.1);
        lemma_records_with_id_plain(records_of(last.1));
        let valid = records_with_id(records_of(last.1));
        lemma_items_plain_numbers(valid);
        lemma_node_statement_good(canonical_label(m.labels, last.0), valid);
        let before = node_statements(m, f);
        assert forall|i: int| 0 <= i < node_statements(m, es).len() implies good_statement(#[trigger] node_statements(m, es)[i]) by {
            if i < before.len() {
                assert(node_statements(m, es)[i] == before[i]);
            }
        }
    }
}

/// Every statement of a payload whose numbers are plain is good.
pub proof fn lemma_query_blocks_good(m: AdapterModel, payload: Json)
    requires
        plain_numbers(payload),
    ensures
        forall|i: int| 0 <= i < query_blocks(m, payload).len() ==> good_statement(#[trigger] query_blocks(m, payload)[i]),
{
    if let Json::Object(es) = payload {
        lemma_members_plain_numbers(es);
        lemma_node_statements_good(m, es);
        let ids = id_index(m.labels, es);
        let gs = group_rows(entities_rows(m.labels, ids, es));
        let a = node_statements(m, es);
        let b = Seq::new(gs.len(), |i: int| edge_statement(m, gs[i]));
        assert forall|i: int| 0 <= i < (a + b).len() implies good_statement(#[trigger] (a + b)[i]) by {
            if i < a.len() {
                assert((a + b)[i] == a[i]);
            } else {
                assert((a + b)[i] == b[i - a.len()]);
                lemma_edge_statement_good(m, gs[i - a.len()]);
            }
        }
    }
}

/// Text in which no `;` ends a statement extends the last piece.
proof fn lemma_split_extend(x: Seq<char>, t: Seq<char>)
    requires
        splitless_from(scan_from(Quote::Plain, x), t),
    ensures
        split_pieces(x + t, ';') == split_pieces(x, ';').update(
            split_pieces(x, ';').len() - 1,
            split_pieces(x, ';').last() + t,
        ),
    decreases t.len(),
{
    lemma_split_pieces_len(x, ';');
    let p = split_pieces(x, ';');
    if t.len() == 0 {
        assert(x + t =~= x);
        assert(p.last() + t =~= p.last());
        assert(p.update(p.len() - 1, p.last()) =~= p);
    } else {
        let u = t.drop_last();
        lemma_split_extend(x, u);
        assert((x + t).drop_last() =~= x + u);
        assert((x + t).last() == t.last());
        lemma_scan_concat(Quote::Plain, x, u);
        let q = split_pieces(x + u, ';');
        assert(q.len() == p.len());
        assert(t =~= u.push(t.last()));
        assert(q.last().push(t.last()) =~= p.last() + t);
        assert(q.update(q.len() - 1, q.last().push(t.last())) =~= p.update(p.len() - 1, p.last() + t));
    }
}

/// The pieces of the statements joined by blank lines: each body, the ones
/// after the first behind the blank line.
pub open spec fn joined_pieces(bs: Seq<Seq<char>>) -> Seq<Seq<char>> {
    Seq::new(
        bs.len(),
        |i: int|
            if i == 0 {
                bs[0].drop_last()
            } else {
                "\n\n"@ + bs[i].drop_last()
            },
    )
}

proof fn lemma_split_one(last: Seq<char>)
    requires
        good_statement(last),
    ensures
        split_pieces(last, ';') == seq![last.drop_last(), Seq::<char>::empty()],
        scan_from(Quote::Plain, last) == Quote::Plain,
{
    let body = last.drop_last();
    let e = Seq::<char>::empty();
    assert(split_pieces(e, ';') =~= seq![e]);
    lemma_split_extend(e, body);
    assert(e + body =~= body);
    assert(split_pieces(body, ';') =~= seq![body]);
    assert(last =~= body.push(';'));
    assert(split_pieces(last, ';') == split_pieces(body, ';').push(e));
    lemma_scan_one(Quote::Plain, ';');
    lemma_scan_concat(Quote::Plain, body, seq![';']);
    assert(body + seq![';'] =~= last);
}

proof fn lemma_split_step(j: Seq<char>, last: Seq<char>)
    requires
        good_statement(last),
        scan_from(Quote::Plain, j) == Quote::Plain,
        split_pieces(j, ';').len() > 0,
        split_pieces(j, ';').last() == Seq::<char>::empty(),
    ensures
        split_pieces(j + "\n\n"@ + last, ';') == split_pieces(j, ';').drop_last().push(
            "\n\n"@ + last.drop_last(),
        ).push(Seq::<char>::empty()),
        scan_from(Quote::Plain, j + "\n\n"@ + last) == Quote::Plain,
{
    reveal_strlit("\n\n");
    let nl = "\n\n"@;
    assert(quote_free(nl));
    lemma_quote_free_closed(nl);
    let body = last.drop_last();
    let tail = nl + body;
    lemma_closed_concat(nl, body);
    lemma_split_extend(j, tail);
    let p = split_pieces(j, ';');
    let whole = j + tail;
    assert(j + nl + last =~= whole.push(';'));
    assert(whole.push(';').drop_last() =~= whole);
    lemma_scan_concat(Quote::Plain, j, tail);
    assert(Seq::<char>::empty() + tail =~= tail);
    assert(split_pieces(whole, ';') =~= p.drop_last().push(tail));
    lemma_scan_one(Quote::Plain, ';');
    lemma_scan_concat(Quote::Plain, whole, seq![';']);
    assert(whole + seq![';'] =~= whole.push(';'));
}

proof fn lemma_split_blocks(bs: Seq<Seq<char>>)
    requires
        bs.len() > 0,
        forall|i: int| 0 <= i < bs.len() ==> good_statement(#[trigger] bs[i]),
    ensures
        split_pieces(join(bs, "\n\n"@), ';') == joined_pieces(bs).push(Seq::empty()),
        scan_from(Quote::Plain, join(bs, "\n\n"@)) == Quote::Plain,
    decreases bs.len(),
{
    let nl = "\n\n"@;
    let last = bs[bs.len() - 1];
    assert(last == bs.last());
    assert(good_statement(last));
    if bs.len() == 1 {
        assert(join(bs, nl) == last);
        lemma_split_one(last);
        assert(joined_pieces(bs).push(Seq::<char>::empty()) =~= seq![last.drop_last(), Seq::<char>::empty()]);
    } else {
        let f = bs.drop_last();
        assert forall|i: int| 0 <= i < f.len() implies good_statement(#[trigger] f[i]) by {
            assert(f[i] == bs[i]);
        }
        lemma_split_blocks(f);
        let j = join(f, nl);
        assert(join(bs, nl) == j + nl + last);
        lemma_split_step(j, last);
        assert(joined_pieces(f).push(Seq::<char>::empty()).drop_last() =~= joined_pieces(f));
        assert(joined_pieces(f).push(nl + last.drop_last()) =~= joined_pieces(bs)) by {
            assert forall|i: int| 0 <= i < f.len() implies joined_pieces(bs)[i] == joined_pieces(f)[i] by {
                assert(bs[i] == f[i]);
            }
        }
    }
}

proof fn lemma_trim_body(b: Seq<char>)
    requires
        well_ended(b),
    ensures
        trim(b) == b,
        trim("\n\n"@ + b) == b,
{
    reveal_strlit("\n\n");
    assert(trim_start(b) == b);
    assert(trim_end(b) == b);
    let t = "\n\n"@ + b;
    assert(t[0] == '\n');
    assert(t.drop_first() =~= seq!['\n'] + b);
    assert((seq!['\n'] + b)[0] == '\n');
    assert((seq!['\n'] + b).drop_first() =~= b);
    assert(trim_start(t) == trim_start(t.drop_first()));
    assert(trim_start(seq!['\n'] + b) == trim_start(b));
}

proof fn lemma_trim_pieces(bs: Seq<Seq<char>>)
    requires
        forall|i: int| 0 <= i < bs.len() ==> good_statement(#[trigger] bs[i]),
    ensures
        nonblank_trimmed(joined_pieces(bs)) == Seq::new(bs.len(), |i: int| bs[i].drop_last()),
    decreases bs.len(),
{
    if bs.len() > 0 {
        let f = bs.drop_last();
        assert forall|i: int| 0 <= i < f.len() implies good_statement(#[trigger] f[i]) by {
            assert(f[i] == bs[i]);
        }
        lemma_trim_pieces(f);
        let last = bs[bs.len() - 1];
        assert(good_statement(last));
        lemma_trim_body(last.drop_last());
        assert(joined_pieces(bs).drop_last() =~= joined_pieces(f)) by {
            assert forall|i: int| 0 <= i < f.len() implies joined_pieces(bs)[i] == joined_pieces(f)[i] by {
                assert(bs[i] == f[i]);
            }
        }
        assert(Seq::new(bs.len(), |i: int| bs[i].drop_last()) =~= Seq::new(f.len(), |i: int| f[i].drop_last()).push(
            last.drop_last(),
        ));
    }
}

/// The generated Cypher of a payload, split at the `;` that end statements,
/// gives back exactly its statements, each without its `;`: a `;` inside a
/// string value or a quoted key does not cut a statement. The payload's
/// numbers are taken to be written as JSON writes them, without quotes or
/// `;`.
pub proof fn law_generated_statements_split_back(m: AdapterModel, payload: Json)
    requires
        plain_numbers(payload),
    ensures
        statements_of(queries_text(m, payload)) == Seq::new(
            query_blocks(m, payload).len(),
            |i: int| without_statement_end(query_blocks(m, payload)[i]),
        ),
{
    reveal_strlit("\n\n");
    let bs = query_blocks(m, payload);
    lemma_query_blocks_good(m, payload);
    let want = Seq::new(bs.len(), |i: int| without_statement_end(bs[i]));
    if bs.len() == 0 {
        let e = Seq::<char>::empty();
        assert(join(bs, "\n\n"@) == e);
        assert(split_pieces(e, ';') =~= seq![e]);
        assert(trim_start(e) == e);
        assert(trim_end(e) == e);
        assert(seq![e].drop_last() =~= Seq::<Seq<char>>::empty());
        assert(seq![e].last() == e);
        assert(trim(e) == e);
        assert(nonblank_trimmed(Seq::<Seq<char>>::empty()) == Seq::<Seq<char>>::empty());
        assert(nonblank_trimmed(seq![e]) == Seq::<Seq<char>>::empty());
        assert(want =~= Seq::<Seq<char>>::empty());
    } else {
        lemma_split_blocks(bs);
        lemma_trim_pieces(bs);
        let pieces = joined_pieces(bs).push(Seq::empty());
        let e = Seq::<char>::empty();
        assert(trim_start(e) == e);
        assert(trim_end(e) == e);
        assert(pieces.drop_last() =~= joined_pieces(bs));
        assert(pieces.last() == e);
        assert(nonblank_trimmed(pieces) == nonblank_trimmed(joined_pieces(bs)));
        assert forall|i: int| 0 <= i < bs.len() implies want[i] == bs[i].drop_last() by {
            assert(good_statement(bs[i]));
        }
        assert(want =~= Seq::new(bs.len(), |i: int| bs[i].drop_last()));
    }
}

/// The transaction request made for the generated Cypher of a payload sends
/// exactly its statements, one per block, each without its `;`.
pub proof fn law_generated_request_sends_the_blocks(m: AdapterModel, payload: Json)
    requires
        plain_numbers(payload),
    ensures
        request_body_model(queries_text(m, payload)) == statements_body_model(query_blocks(m, payload)),
{
    law_generated_statements_split_back(m, payload);
    let st = statements_of(queries_text(m, payload));
    let bs = query_blocks(m, payload);
    assert(Seq::new(st.len(), |i: int| statement_object(st[i])) =~= Seq::new(
        bs.len(),
        |i: int| statement_object(without_statement_end(bs[i])),
    ));
}

} // verus!
