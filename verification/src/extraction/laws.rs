//! What holds of the BAML field names and of the replacement of entity ids
//! for every input.

use vstd::prelude::*;

use crate::extraction::baml::{
    lemma_insert_by_name, name_lt, sort_by_name, baml_scalar, baml_schema, baml_type, char_alphanumeric, entities_ids, field_char, field_name_of, payload_ids, records_ids,
    remap_entity_value, remap_members, remap_payload, remap_record, remap_ref_id, remap_refs,
};
use crate::ontology::model::{NodeModel, OntologyModel};
use crate::json::{lemma_members_get_push, lemma_members_set_get, members_get, set_member, Json};
use crate::persistence::cypher::{record_id, records_of};
use crate::ontology::model::RangeModel;
use crate::ontology::schema::scalar_type;
use crate::text::{ascii_lowercase, is_ascii_digit, is_ascii_upper};

verus! {

/// A BAML field name holds only alphanumeric characters and `_`, and does
/// not start with an ASCII digit.
pub proof fn law_field_name_is_valid(name: Seq<char>)
    ensures
        forall|i: int|
            0 <= i < field_name_of(name).len() ==> char_alphanumeric(#[trigger] field_name_of(name)[i])
                || field_name_of(name)[i] == '_',
        field_name_of(name).len() > 0 ==> !is_ascii_digit(field_name_of(name)[0]),
{
    let lowered = crate::extraction::baml::lowered_name(name);
    let mapped = lowered.map_values(|c: char| field_char(c));
    assert forall|i: int| 0 <= i < mapped.len() implies char_alphanumeric(#[trigger] mapped[i])
        || mapped[i] == '_' by {
        assert(mapped[i] == field_char(lowered[i]));
    }
    if mapped.len() > 0 && is_ascii_digit(mapped[0]) {
        let f = seq!['_'] + mapped;
        assert(field_name_of(name) == f);
        assert forall|i: int| 0 <= i < f.len() implies char_alphanumeric(#[trigger] f[i]) || f[i]
            == '_' by {
            if i > 0 {
                assert(f[i] == mapped[i - 1]);
            }
        }
    } else {
        assert(field_name_of(name) == mapped);
    }
}

/// Remapping keeps the members of an object in place and remaps each value.
proof fn lemma_remap_members_get(ms: Seq<(Seq<char>, Json)>, m: Map<Seq<char>, Seq<char>>, k: Seq<char>)
    ensures
        members_get(remap_members(ms, m), k) == match members_get(ms, k) {
            Some(v) => Some(remap_refs(v, m)),
            None => None,
        },
    decreases ms.len(),
{
    if ms.len() > 0 {
        let front = ms.drop_last();
        lemma_remap_members_get(front, m, k);
        lemma_members_get_push(remap_members(front, m), (ms.last().0, remap_refs(ms.last().1, m)), k);
        assert(front.push(ms.last()) =~= ms);
        lemma_members_get_push(front, ms.last(), k);
    }
}

/// Remapping never turns a string into anything else, nor anything else into
/// a string.
proof fn lemma_remap_refs_keeps_strings(v: Json, m: Map<Seq<char>, Seq<char>>)
    ensures
        remap_refs(v, m).as_str() == v.as_str(),
{
    match v {
        Json::Object(ms) => {
            if members_get(ms, "type"@) is Some {
                if v.get_str("id"@) is Some && m.contains_key(v.get_str("id"@)->Some_0) {
                    assert(set_member(v, "id"@, Json::Str(m[v.get_str("id"@)->Some_0])) is Object);
                }
            }
        },
        _ => {},
    }
}

/// The id of a remapped record: the image of its old id.
proof fn lemma_remap_record_id(r: Json, m: Map<Seq<char>, Seq<char>>)
    requires
        record_id(r) matches Some(x) ==> m.contains_key(x),
    ensures
        record_id(remap_record(r, m)) == match record_id(r) {
            Some(x) => Some(m[x]),
            None => None,
        },
{
    reveal_strlit("id");
    match r {
        Json::Object(ms) => {
            match record_id(r) {
                Some(x) => {
                    let new_id = Json::Str(m[x]);
                    lemma_members_set_get(ms, "id"@, new_id, "id"@);
                    let ms2 = set_member(r, "id"@, new_id)->Object_0;
                    assert(remap_ref_id(r, m) == Json::Object(ms2));
                    lemma_remap_members_get(ms2, m, "id"@);
                    assert(remap_refs(new_id, m) == new_id);
                },
                None => {
                    assert(remap_ref_id(r, m) == r);
                    lemma_remap_members_get(ms, m, "id"@);
                    match members_get(ms, "id"@) {
                        Some(v) => lemma_remap_refs_keeps_strings(v, m),
                        None => {},
                    }
                },
            }
        },
        _ => {},
    }
}

/// An entity and every reference to it get the same new id: a record whose
/// `id` is `x`, and a reference object (one with a `type`) whose `id` is
/// `x`, both carry `m[x]` after remapping, and the reference keeps its
/// `type`.
pub proof fn law_references_follow_their_target(
    rec: Json,
    reference: Json,
    m: Map<Seq<char>, Seq<char>>,
    x: Seq<char>,
)
    requires
        record_id(rec) == Some(x),
        reference.get("type"@) is Some,
        reference.get_str("id"@) == Some(x),
        m.contains_key(x),
    ensures
        record_id(remap_record(rec, m)) == Some(m[x]),
        remap_refs(reference, m).get_str("id"@) == Some(m[x]),
        remap_refs(reference, m).get("type"@) == reference.get("type"@),
{
    reveal_strlit("id");
    reveal_strlit("type");
    lemma_remap_record_id(rec, m);
    let ms = reference->Object_0;
    lemma_members_set_get(ms, "id"@, Json::Str(m[x]), "id"@);
    lemma_members_set_get(ms, "id"@, Json::Str(m[x]), "type"@);
    assert("type"@ != "id"@) by {
        assert("type"@.len() != "id"@.len());
    }
}

proof fn lemma_records_ids_remapped(recs: Seq<Json>, m: Map<Seq<char>, Seq<char>>)
    requires
        forall|i: int| 0 <= i < records_ids(recs).len() ==> m.contains_key(#[trigger] records_ids(recs)[i]),
    ensures
        records_ids(Seq::new(recs.len(), |i: int| remap_record(recs[i], m))) == records_ids(recs).map_values(
            |k: Seq<char>| m[k],
        ),
    decreases recs.len(),
{
    let out = Seq::new(recs.len(), |i: int| remap_record(recs[i], m));
    if recs.len() > 0 {
        let front = recs.drop_last();
        let before = records_ids(front);
        assert forall|i: int| 0 <= i < before.len() implies m.contains_key(#[trigger] before[i]) by {
            assert(records_ids(recs)[i] == before[i]);
        }
        lemma_records_ids_remapped(front, m);
        assert(out.drop_last() =~= Seq::new(front.len(), |i: int| remap_record(front[i], m)));
        let last = recs.last();
        if let Some(x) = record_id(last) {
            assert(records_ids(recs)[before.len() as int] == x);
        }
        lemma_remap_record_id(last, m);
        assert(out.last() == remap_record(last, m));
        assert(records_ids(out) =~= records_ids(recs).map_values(|k: Seq<char>| m[k]));
    }
}

/// A remapped record is an object exactly when the record is.
proof fn lemma_remap_record_shape(r: Json, m: Map<Seq<char>, Seq<char>>)
    ensures
        r is Object ==> remap_record(r, m) is Object,
        !(r is Object) ==> remap_record(r, m) == r,
{
    if let Json::Object(ms) = r {
        if let Some(id) = r.get_str("id"@) {
            if m.contains_key(id) {
                assert(set_member(r, "id"@, Json::Str(m[id])) is Object);
            }
        }
    }
}

proof fn lemma_entity_records_remapped(v: Json, m: Map<Seq<char>, Seq<char>>)
    ensures
        records_of(remap_entity_value(v, m)) == Seq::new(
            records_of(v).len(),
            |i: int| remap_record(records_of(v)[i], m),
        ),
{
    match v {
        Json::Object(_) => {
            lemma_remap_record_shape(v, m);
            assert(records_of(remap_entity_value(v, m)) =~= Seq::new(
                records_of(v).len(),
                |i: int| remap_record(records_of(v)[i], m),
            ));
        },
        Json::Array(items) => {
            assert(records_of(remap_entity_value(v, m)) =~= Seq::new(
                records_of(v).len(),
                |i: int| remap_record(records_of(v)[i], m),
            ));
        },
        _ => {
            assert(records_of(remap_entity_value(v, m)) =~= Seq::new(
                records_of(v).len(),
                |i: int| remap_record(records_of(v)[i], m),
            ));
        },
    }
}

proof fn lemma_entities_ids_remapped(es: Seq<(Seq<char>, Json)>, m: Map<Seq<char>, Seq<char>>)
    requires
        forall|i: int| 0 <= i < entities_ids(es).len() ==> m.contains_key(#[trigger] entities_ids(es)[i]),
    ensures
        entities_ids(Seq::new(es.len(), |i: int| (es[i].0, remap_entity_value(es[i].1, m))))
            == entities_ids(es).map_values(|k: Seq<char>| m[k]),
    decreases es.len(),
{
    let out = Seq::new(es.len(), |i: int| (es[i].0, remap_entity_value(es[i].1, m)));
    if es.len() > 0 {
        let front = es.drop_last();
        let a = entities_ids(front);
        let recs = records_of(es.last().1);
        let b = records_ids(recs);
        assert(entities_ids(es) == a + b);
        assert forall|i: int| 0 <= i < a.len() implies m.contains_key(#[trigger] a[i]) by {
            assert(entities_ids(es)[i] == a[i]);
        }
        assert forall|i: int| 0 <= i < b.len() implies m.contains_key(#[trigger] b[i]) by {
            assert(entities_ids(es)[a.len() + i] == b[i]);
        }
        lemma_entities_ids_remapped(front, m);
        assert(out.drop_last() =~= Seq::new(
            front.len(),
            |i: int| (front[i].0, remap_entity_value(front[i].1, m)),
        ));
        lemma_entity_records_remapped(es.last().1, m);
        lemma_records_ids_remapped(recs, m);
        assert(out.last().1 == remap_entity_value(es.last().1, m));
        assert(entities_ids(out) =~= entities_ids(es).map_values(|k: Seq<char>| m[k]));
    }
}

/// When `m` maps every entity id of a payload, the remapped payload's entity
/// ids are exactly the images of the old ones, in the same order.
pub proof fn law_remapped_ids(p: Json, m: Map<Seq<char>, Seq<char>>)
    requires
        forall|k: Seq<char>| #[trigger] payload_ids(p).contains(k) ==> m.contains_key(k),
    ensures
        payload_ids(remap_payload(p, m)) == payload_ids(p).map_values(|k: Seq<char>| m[k]),
{
    if let Json::Object(es) = p {
        assert forall|i: int| 0 <= i < entities_ids(es).len() implies m.contains_key(
            #[trigger] entities_ids(es)[i],
        ) by {
            assert(payload_ids(p).contains(entities_ids(es)[i]));
        }
        lemma_entities_ids_remapped(es, m);
    } else {
        assert(payload_ids(p).map_values(|k: Seq<char>| m[k]) =~= Seq::<Seq<char>>::empty());
    }
}

proof fn lemma_name_lt_asymmetric(a: Seq<char>, b: Seq<char>)
    ensures
        name_lt(a, b) ==> !name_lt(b, a),
    decreases a.len(),
{
    if a.len() > 0 && b.len() > 0 && a[0] == b[0] {
        lemma_name_lt_asymmetric(a.drop_first(), b.drop_first());
    }
}

proof fn lemma_name_lt_total(a: Seq<char>, b: Seq<char>)
    ensures
        name_lt(a, b) || name_lt(b, a) || a == b,
    decreases a.len(),
{
    if a.len() == 0 && b.len() == 0 {
        assert(a =~= b);
    } else if a.len() > 0 && b.len() > 0 && a[0] == b[0] {
        lemma_name_lt_total(a.drop_first(), b.drop_first());
        if a.drop_first() == b.drop_first() {
            assert(a =~= seq![a[0]] + a.drop_first());
            assert(b =~= seq![b[0]] + b.drop_first());
        }
    }
}

proof fn lemma_name_lt_transitive(a: Seq<char>, b: Seq<char>, c: Seq<char>)
    requires
        name_lt(a, b),
        name_lt(b, c),
    ensures
        name_lt(a, c),
    decreases a.len(),
{
    if a.len() > 0 && a[0] == b[0] && b[0] == c[0] {
        lemma_name_lt_transitive(a.drop_first(), b.drop_first(), c.drop_first());
    }
}

/// Each node comes no later than the nodes after it, in name order.
pub open spec fn sorted_by_name(s: Seq<NodeModel>) -> bool {
    forall|i: int, j: int| 0 <= i < j < s.len() ==> !name_lt(#[trigger] s[j].name, #[trigger] s[i].name)
}

/// Where `n` goes in `s`: before the first node whose name comes after its own.
spec fn insert_position(s: Seq<NodeModel>, n: NodeModel) -> int
    decreases s.len(),
{
    if s.len() == 0 || name_lt(n.name, s[0].name) {
        0
    } else {
        1 + insert_position(s.drop_first(), n)
    }
}

proof fn lemma_insert_position(s: Seq<NodeModel>, n: NodeModel)
    ensures
        0 <= insert_position(s, n) <= s.len(),
        forall|j: int| 0 <= j < insert_position(s, n) ==> !name_lt(n.name, #[trigger] s[j].name),
        insert_position(s, n) < s.len() ==> name_lt(n.name, s[insert_position(s, n)].name),
    decreases s.len(),
{
    if s.len() > 0 && !name_lt(n.name, s[0].name) {
        let t = s.drop_first();
        lemma_insert_position(t, n);
        assert forall|j: int| 0 <= j < insert_position(s, n) implies !name_lt(n.name, #[trigger] s[j].name) by {
            if j > 0 {
                assert(s[j] == t[j - 1]);
            }
        }
        if insert_position(s, n) < s.len() {
            assert(s[insert_position(s, n)] == t[insert_position(t, n)]);
        }
    }
}

proof fn lemma_sorted_insert(u: Seq<NodeModel>, n: NodeModel, k: int)
    requires
        sorted_by_name(u),
        0 <= k <= u.len(),
        forall|j: int| 0 <= j < k ==> !name_lt(n.name, #[trigger] u[j].name),
        k < u.len() ==> name_lt(n.name, u[k].name),
    ensures
        sorted_by_name(u.insert(k, n)),
{
    let t = u.insert(k, n);
    assert forall|i: int, j: int| 0 <= i < j < t.len() implies !name_lt(#[trigger] t[j].name, #[trigger] t[i].name) by {
        if i == k {
            let w = u[j - 1];
            assert(t[j] == w);
            if j - 1 > k {
                assert(!name_lt(u[j - 1].name, u[k].name));
                lemma_name_lt_total(u[k].name, w.name);
                if name_lt(u[k].name, w.name) {
                    lemma_name_lt_transitive(n.name, u[k].name, w.name);
                }
            }
            lemma_name_lt_asymmetric(n.name, w.name);
        } else if j == k {
            assert(t[i] == u[i]);
        } else {
            let a = if i < k { i } else { i - 1 };
            let b = if j < k { j } else { j - 1 };
            assert(t[i] == u[a]);
            assert(t[j] == u[b]);
        }
    }
}

/// Sorting the nodes by name puts them in name order and keeps every node
/// as often as it was there.
pub proof fn law_sort_by_name(s: Seq<NodeModel>)
    ensures
        sorted_by_name(sort_by_name(s)),
        sort_by_name(s).to_multiset() == s.to_multiset(),
        sort_by_name(s).len() == s.len(),
    decreases s.len(),
{
    broadcast use vstd::seq_lib::group_to_multiset_ensures;
    if s.len() == 0 {
        assert(sort_by_name(s) =~= s);
    } else {
        let front = s.drop_last();
        law_sort_by_name(front);
        let u = sort_by_name(front);
        let n = s.last();
        lemma_insert_position(u, n);
        let k = insert_position(u, n);
        lemma_insert_by_name(u, n, k);
        lemma_sorted_insert(u, n, k);
        vstd::seq_lib::to_multiset_insert(u, k, n);
        vstd::seq_lib::to_multiset_build(front, n);
        assert(front.push(n) =~= s);
    }
}

proof fn lemma_lowercase_keeps_lowercase(s: Seq<char>)
    requires
        forall|i: int| 0 <= i < s.len() ==> !is_ascii_upper(#[trigger] s[i]),
    ensures
        ascii_lowercase(s) == s,
{
    assert(ascii_lowercase(s) =~= s);
}

/// The BAML type of an XSD scalar agrees with the JSON Schema type that the
/// ontology's schema gives it: `integer` is `int`, `number` is `float`,
/// `boolean` is `bool`; and a property's BAML type is `EntityRef` exactly
/// when it is a reference, as the schema gives a reference `$ref` to
/// `EntityRef` exactly then.
pub proof fn law_baml_types_agree_with_schema(x: Seq<char>, range: RangeModel)
    ensures
        scalar_type(x) == "integer"@ ==> baml_scalar(x) == "int"@,
        scalar_type(x) == "number"@ ==> baml_scalar(x) == "float"@,
        scalar_type(x) == "boolean"@ ==> baml_scalar(x) == "bool"@,
        (baml_type(range) == "EntityRef"@) <==> (range is Reference),
{
    reveal_strlit("xsd:integer");
    reveal_strlit("xsd:int");
    reveal_strlit("xsd:long");
    reveal_strlit("xsd:short");
    reveal_strlit("xsd:decimal");
    reveal_strlit("xsd:float");
    reveal_strlit("xsd:double");
    reveal_strlit("xsd:boolean");
    reveal_strlit("integer");
    reveal_strlit("number");
    reveal_strlit("double");
    reveal_strlit("boolean");
    reveal_strlit("string");
    reveal_strlit("int");
    reveal_strlit("float");
    reveal_strlit("bool");
    reveal_strlit("string[]");
    reveal_strlit("int[]");
    reveal_strlit("float[]");
    reveal_strlit("bool[]");
    reveal_strlit("EntityRef");
    if x == "xsd:integer"@ || x == "xsd:int"@ || x == "xsd:long"@ || x == "xsd:short"@ || x
        == "xsd:decimal"@ || x == "xsd:float"@ || x == "xsd:double"@ || x == "xsd:boolean"@ {
        lemma_lowercase_keeps_lowercase(x);
    }
    assert("integer"@.len() != "string"@.len());
    assert("number"@[0] != "string"@[0]);
    assert("boolean"@.len() != "string"@.len());
    assert("integer"@.len() != "number"@.len());
    assert("integer"@[0] != "boolean"@[0]);
    assert("number"@.len() != "boolean"@.len());
    assert("xsd:boolean"@[4] != "xsd:integer"@[4]);
    assert("xsd:boolean"@[4] != "xsd:decimal"@[4]);
    if scalar_type(x) == "boolean"@ {
        assert(x == "xsd:boolean"@);
        let l = ascii_lowercase(x);
        assert(l == x);
        assert(l != "xsd:int"@ && l != "xsd:long"@ && l != "xsd:short"@ && l != "int"@);
        assert(l != "integer"@ && l != "xsd:float"@ && l != "xsd:double"@);
        assert(l != "float"@ && l != "double"@ && l != "number"@);
        assert(baml_scalar(x) == "bool"@);
    }
    assert("EntityRef"@[0] == 'E');
    if let RangeModel::Scalar(y) = range {
        let b = baml_scalar(y);
        assert(b[0] != 'E');
    }
}

/// The BAML type that stands for a JSON Schema scalar type: `int` for
/// `integer`, `float` for `number`, `bool` for `boolean`, `string` for the
/// rest.
pub open spec fn baml_of_schema_type(t: Seq<char>) -> Seq<char> {
    if t == "integer"@ {
        "int"@
    } else if t == "number"@ {
        "float"@
    } else if t == "boolean"@ {
        "bool"@
    } else {
        "string"@
    }
}

/// The JSON Schema type of an XSD scalar: `integer` for `xsd:integer`,
/// `xsd:int`, `xsd:long` and `xsd:short`; `number` for `xsd:decimal`,
/// `xsd:float` and `xsd:double`; `boolean` for `xsd:boolean`; `string` for
/// every other name (as written, case and all).
pub proof fn law_xsd_schema_types(x: Seq<char>)
    ensures
        x == "xsd:integer"@ || x == "xsd:int"@ || x == "xsd:long"@ || x == "xsd:short"@
            ==> scalar_type(x) == "integer"@,
        x == "xsd:decimal"@ || x == "xsd:float"@ || x == "xsd:double"@ ==> scalar_type(x) == "number"@,
        x == "xsd:boolean"@ ==> scalar_type(x) == "boolean"@,
        !(x == "xsd:integer"@ || x == "xsd:int"@ || x == "xsd:long"@ || x == "xsd:short"@ || x
            == "xsd:decimal"@ || x == "xsd:float"@ || x == "xsd:double"@ || x == "xsd:boolean"@)
            ==> scalar_type(x) == "string"@,
{
    reveal_strlit("xsd:integer");
    reveal_strlit("xsd:int");
    reveal_strlit("xsd:long");
    reveal_strlit("xsd:short");
    reveal_strlit("xsd:decimal");
    reveal_strlit("xsd:float");
    reveal_strlit("xsd:double");
    reveal_strlit("xsd:boolean");
    let names = seq!["xsd:integer"@, "xsd:int"@, "xsd:long"@, "xsd:short"@, "xsd:decimal"@, "xsd:float"@, "xsd:double"@, "xsd:boolean"@];
    assert(names[4][4] != names[0][4] && names[4][4] != names[1][4] && names[4][4] != names[2][4] && names[4][4] != names[3][4]);
    assert(names[5][4] != names[0][4] && names[5][4] != names[1][4] && names[5][4] != names[2][4] && names[5][4] != names[3][4]);
    assert(names[6][4] != names[0][4] && names[6][4] != names[1][4] && names[6][4] != names[2][4] && names[6][4] != names[3][4]);
    assert(names[7][4] != names[0][4] && names[7][4] != names[1][4] && names[7][4] != names[2][4] && names[7][4] != names[3][4]);
    assert(names[7][4] != names[4][4] && names[7][4] != names[5][4] && names[7][4] != names[6][4]);
}

proof fn lemma_lowercase_twice(x: Seq<char>)
    ensures
        ascii_lowercase(ascii_lowercase(x)) == ascii_lowercase(x),
{
    assert(ascii_lowercase(ascii_lowercase(x)) =~= ascii_lowercase(x));
}

/// The BAML type of a scalar does not depend on the case of its ASCII
/// letters.
pub proof fn law_baml_scalar_ignores_case(x: Seq<char>)
    ensures
        baml_scalar(x) == baml_scalar(ascii_lowercase(x)),
{
    lemma_lowercase_twice(x);
}

/// An XSD scalar (its `xsd:` prefix in any case) has the BAML type that
/// stands for the JSON Schema type of its lower-case name: in particular an
/// XSD name that the schema types as `string`, such as `xsd:dateTime`, is a
/// BAML `string`.
pub proof fn law_xsd_scalars_follow_schema(x: Seq<char>)
    requires
        ascii_lowercase(x).len() >= 4,
        ascii_lowercase(x).take(4) == "xsd:"@,
    ensures
        baml_scalar(x) == baml_of_schema_type(scalar_type(ascii_lowercase(x))),
{
    reveal_strlit("xsd:");
    reveal_strlit("xsd:integer");
    reveal_strlit("xsd:int");
    reveal_strlit("xsd:long");
    reveal_strlit("xsd:short");
    reveal_strlit("xsd:decimal");
    reveal_strlit("xsd:float");
    reveal_strlit("xsd:double");
    reveal_strlit("xsd:boolean");
    reveal_strlit("integer");
    reveal_strlit("number");
    reveal_strlit("double");
    reveal_strlit("boolean");
    reveal_strlit("string");
    reveal_strlit("int");
    reveal_strlit("float");
    reveal_strlit("bool");
    reveal_strlit("string[]");
    reveal_strlit("int[]");
    reveal_strlit("integer[]");
    reveal_strlit("float[]");
    reveal_strlit("bool[]");
    reveal_strlit("boolean[]");
    let l = ascii_lowercase(x);
    assert(l[0] == l.take(4)[0]);
    assert(l[0] == 'x');
    assert(l != "int"@ && l != "integer"@ && l != "float"@ && l != "double"@ && l != "number"@);
    assert(l != "boolean"@ && l != "bool"@ && l != "string[]"@ && l != "int[]"@ && l != "integer[]"@);
    assert(l != "float[]"@ && l != "bool[]"@ && l != "boolean[]"@);
    assert("integer"@.len() != "number"@.len());
    assert("integer"@[0] != "boolean"@[0]);
    assert("number"@.len() != "boolean"@.len());
    assert("string"@[0] != "integer"@[0]);
    assert("string"@[0] != "number"@[0]);
    assert("string"@[0] != "boolean"@[0]);
}

/// No two nodes share a name.
pub open spec fn distinct_names(s: Seq<NodeModel>) -> bool {
    forall|i: int, j: int| 0 <= i < j < s.len() ==> (#[trigger] s[i]).name != (#[trigger] s[j]).name
}

proof fn lemma_same_elements(s: Seq<NodeModel>, t: Seq<NodeModel>, x: NodeModel)
    requires
        s.to_multiset() == t.to_multiset(),
    ensures
        s.contains(x) <==> t.contains(x),
{
    vstd::seq_lib::to_multiset_contains(s, x);
    vstd::seq_lib::to_multiset_contains(t, x);
}

/// Sorting keeps the names distinct.
proof fn lemma_sort_keeps_distinct_names(s: Seq<NodeModel>)
    requires
        distinct_names(s),
    ensures
        distinct_names(sort_by_name(s)),
    decreases s.len(),
{
    if s.len() > 0 {
        let front = s.drop_last();
        let n = s.last();
        assert(distinct_names(front)) by {
            assert forall|i: int, j: int| 0 <= i < j < front.len() implies (#[trigger] front[i]).name
                != (#[trigger] front[j]).name by {
                assert(front[i] == s[i] && front[j] == s[j]);
            }
        }
        lemma_sort_keeps_distinct_names(front);
        law_sort_by_name(front);
        let u = sort_by_name(front);
        lemma_insert_position(u, n);
        let k = insert_position(u, n);
        lemma_insert_by_name(u, n, k);
        let t = u.insert(k, n);
        assert forall|j: int| 0 <= j < u.len() implies (#[trigger] u[j]).name != n.name by {
            lemma_same_elements(u, front, u[j]);
            assert(u.contains(u[j]));
            let p = choose|p: int| 0 <= p < front.len() && front[p] == u[j];
            assert(s[p] == front[p]);
            assert(s[s.len() - 1] == n);
        }
        assert forall|i: int, j: int| 0 <= i < j < t.len() implies (#[trigger] t[i]).name != (#[trigger] t[j]).name by {
            if i == k {
                assert(t[j] == u[j - 1]);
            } else if j == k {
                assert(t[i] == u[i]);
            } else {
                let a = if i < k { i } else { i - 1 };
                let b = if j < k { j } else { j - 1 };
                assert(t[i] == u[a]);
                assert(t[j] == u[b]);
            }
        }
    }
}

/// Two sequences in name order with the same nodes, whose names are
/// distinct, are the same.
proof fn lemma_sorted_unique(t1: Seq<NodeModel>, t2: Seq<NodeModel>)
    requires
        sorted_by_name(t1),
        sorted_by_name(t2),
        distinct_names(t1),
        t1.to_multiset() == t2.to_multiset(),
    ensures
        t1 == t2,
    decreases t1.len(),
{
    broadcast use vstd::seq_lib::group_to_multiset_ensures;
    vstd::seq_lib::to_multiset_len(t1);
    vstd::seq_lib::to_multiset_len(t2);
    if t1.len() == 0 {
        assert(t2.len() == 0);
        assert(t1 =~= t2);
    } else {
        let a = t1[0];
        let b = t2[0];
        lemma_same_elements(t1, t2, b);
        lemma_same_elements(t1, t2, a);
        assert(t2.contains(b));
        assert(t1.contains(a));
        let i = choose|i: int| 0 <= i < t1.len() && t1[i] == b;
        let j = choose|j: int| 0 <= j < t2.len() && t2[j] == a;
        if i > 0 {
            assert(!name_lt(t1[i].name, t1[0].name));
        }
        if j > 0 {
            assert(!name_lt(t2[j].name, t2[0].name));
        }
        lemma_name_lt_total(a.name, b.name);
        if i > 0 {
            assert(a.name == b.name);
            assert(t1[0].name != t1[i].name);
        }
        assert(a == b);
        vstd::seq_lib::to_multiset_remove(t1, 0);
        vstd::seq_lib::to_multiset_remove(t2, 0);
        assert(t1.remove(0) =~= t1.drop_first());
        assert(t2.remove(0) =~= t2.drop_first());
        let r1 = t1.drop_first();
        let r2 = t2.drop_first();
        assert(sorted_by_name(r1)) by {
            assert forall|p: int, q: int| 0 <= p < q < r1.len() implies !name_lt(#[trigger] r1[q].name, #[trigger] r1[p].name) by {
                assert(r1[p] == t1[p + 1] && r1[q] == t1[q + 1]);
            }
        }
        assert(sorted_by_name(r2)) by {
            assert forall|p: int, q: int| 0 <= p < q < r2.len() implies !name_lt(#[trigger] r2[q].name, #[trigger] r2[p].name) by {
                assert(r2[p] == t2[p + 1] && r2[q] == t2[q + 1]);
            }
        }
        assert(distinct_names(r1)) by {
            assert forall|p: int, q: int| 0 <= p < q < r1.len() implies (#[trigger] r1[p]).name != (#[trigger] r1[q]).name by {
                assert(r1[p] == t1[p + 1] && r1[q] == t1[q + 1]);
            }
        }
        lemma_sorted_unique(r1, r2);
        assert(t1.len() == t2.len());
        assert forall|k: int| 0 <= k < t1.len() implies t1[k] == t2[k] by {
            if k > 0 {
                assert(t1[k] == r1[k - 1]);
                assert(t2[k] == r2[k - 1]);
            }
        }
        assert(t1 =~= t2);
    }
}

/// The BAML schema does not depend on the order in which the ontology lists
/// its classes, when their names are distinct: the same nodes in another
/// order give the same schema.
pub proof fn law_schema_ignores_node_order(o1: OntologyModel, o2: OntologyModel)
    requires
        o1.nodes.to_multiset() == o2.nodes.to_multiset(),
        distinct_names(o1.nodes),
    ensures
        baml_schema(o1) == baml_schema(o2),
{
    law_sort_by_name(o1.nodes);
    law_sort_by_name(o2.nodes);
    lemma_sort_keeps_distinct_names(o1.nodes);
    lemma_sorted_unique(sort_by_name(o1.nodes), sort_by_name(o2.nodes));
}

} // verus!
