//! What holds of every parsed ontology and of its JSON Schema.

use vstd::prelude::*;

use crate::json::{lemma_members_set_get, set_member, Json};
use crate::ontology::model::{EdgeModel, NodeModel, OntologyModel, PropertyModel, RangeModel};
use crate::ontology::parse::{
    context_of, first_pass, is_class_item, is_property_type, node_of, label_of, names_by_id, parse_ontology,
    properties_and_edges, property_step, range_of, type_of, with_properties, domain_of,
};
use crate::ontology::resolver::{declarations, prefix_base, with_trailing_slash, resolve_iri, resolver_of, ResolverModel};
use crate::ontology::schema::{node_named, defs_schema, entity_ref_schema, node_schema, ontology_schema};

verus! {

/// Some node of `nodes` is called `name`.
pub open spec fn names_a_node(nodes: Seq<NodeModel>, name: Seq<char>) -> bool {
    exists|i: int| 0 <= i < nodes.len() && #[trigger] nodes[i].name == name
}

proof fn lemma_names_by_id_values(nodes: Seq<NodeModel>, k: Seq<char>)
    requires
        names_by_id(nodes).contains_key(k),
    ensures
        names_a_node(nodes, names_by_id(nodes)[k]),
    decreases nodes.len(),
{
    let last = nodes.len() - 1;
    if k == nodes[last].id {
        assert(nodes[last].name == names_by_id(nodes)[k]);
    } else {
        let front = nodes.drop_last();
        lemma_names_by_id_values(front, k);
        let i = choose|i: int| 0 <= i < front.len() && #[trigger] front[i].name == names_by_id(front)[k];
        assert(nodes[i].name == names_by_id(nodes)[k]);
    }
}

proof fn lemma_edge_targets(
    r: ResolverModel,
    nodes: Seq<NodeModel>,
    entries: Seq<Json>,
)
    requires
        properties_and_edges(r, names_by_id(nodes), entries) is Ok,
    ensures
        forall|j: int|
            0 <= j < properties_and_edges(r, names_by_id(nodes), entries)->Ok_0.0.len() ==> names_a_node(
                nodes,
                #[trigger] properties_and_edges(r, names_by_id(nodes), entries)->Ok_0.0[j].to,
            ),
    decreases entries.len(),
{
    if entries.len() > 0 {
        let ids = names_by_id(nodes);
        let front = entries.drop_last();
        lemma_edge_targets(r, nodes, front);
        let acc = properties_and_edges(r, ids, front)->Ok_0;
        let out = property_step(r, ids, acc, entries.last())->Ok_0;
        assert(properties_and_edges(r, ids, entries) == property_step(r, ids, acc, entries.last()));
        let item = entries.last();
        if is_property_type(type_of(item)) && label_of(r, item) is Some {
            let label = label_of(r, item)->Some_0;
            if range_of(item, "property "@, label) is Ok {
                let raw = range_of(item, "property "@, label)->Ok_0.1;
                let range_iri = resolve_iri(r, raw);
                if ids.contains_key(range_iri) {
                    lemma_names_by_id_values(nodes, range_iri);
                }
            }
        }
        assert forall|j: int| 0 <= j < out.0.len() implies names_a_node(nodes, #[trigger] out.0[j].to) by {
            if j < acc.0.len() {
                assert(out.0[j] == acc.0[j]);
            }
        }
    }
}

/// A parsed ontology always has a class, so it always passes validation,
/// and every edge points at one of its classes by name.
pub proof fn law_parsed_ontology_is_sound(value: Json)
    requires
        parse_ontology(value) is Ok,
    ensures
        parse_ontology(value)->Ok_0.nodes.len() > 0,
        forall|j: int|
            0 <= j < parse_ontology(value)->Ok_0.edges.len() ==> names_a_node(
                parse_ontology(value)->Ok_0.nodes,
                #[trigger] parse_ontology(value)->Ok_0.edges[j].to,
            ),
{
    let o = parse_ontology(value)->Ok_0;
    let graph = value.get("@graph"@)->Some_0->Array_0;
    let r = resolver_of(context_of(value));
    let (nodes, nested) = first_pass(r, graph)->Ok_0;
    lemma_edge_targets(r, nodes, nested + graph);
    let (edges, props) = properties_and_edges(r, names_by_id(nodes), nested + graph)->Ok_0;
    assert(o.edges == edges);
    assert forall|j: int| 0 <= j < o.edges.len() implies names_a_node(o.nodes, #[trigger] o.edges[j].to) by {
        assert(names_a_node(nodes, edges[j].to));
        let i = choose|i: int| 0 <= i < nodes.len() && #[trigger] nodes[i].name == edges[j].to;
        assert(o.nodes[i] == with_properties(nodes[i], props));
        assert(o.nodes[i].name == edges[j].to);
    }
}

/// An entry without a string `rdfs:label` is named by the short name that
/// the `@context` gives its expanded `@id`, or by the `@id` as written when
/// the context gives none; a labelled entry by its label. Classes, edges
/// and properties are all named so.
pub proof fn law_unlabelled_entries_take_short_names(r: ResolverModel, item: Json, id: Seq<char>)
    requires
        item.get_str("@id"@) == Some(id),
    ensures
        item.get_str("rdfs:label"@) is None && r.short_names.contains_key(resolve_iri(r, id))
            ==> label_of(r, item) == Some(r.short_names[resolve_iri(r, id)]),
        item.get_str("rdfs:label"@) is None && !r.short_names.contains_key(resolve_iri(r, id))
            ==> label_of(r, item) == Some(id),
        item.get_str("rdfs:label"@) matches Some(l) ==> label_of(r, item) == Some(l),
        node_of(r, item) is Ok && node_of(r, item)->Ok_0.name == label_of(r, item)->Some_0,
        node_of(r, item)->Ok_0.id == resolve_iri(r, id),
{
}

/// The items of `graph` that are classes, in order.
pub open spec fn class_items(graph: Seq<Json>) -> Seq<Json>
    decreases graph.len(),
{
    if graph.len() == 0 {
        Seq::empty()
    } else if is_class_item(graph.last()) {
        class_items(graph.drop_last()).push(graph.last())
    } else {
        class_items(graph.drop_last())
    }
}

/// `nodes` are, in order, the nodes that the class items `cs` give, up to
/// their properties.
pub open spec fn nodes_of_items(r: ResolverModel, cs: Seq<Json>, nodes: Seq<NodeModel>) -> bool {
    &&& nodes.len() == cs.len()
    &&& forall|i: int|
        0 <= i < cs.len() ==> (#[trigger] node_of(r, cs[i])) is Ok && node_of(r, cs[i])->Ok_0.id
            == nodes[i].id && node_of(r, cs[i])->Ok_0.name == nodes[i].name && node_of(
            r,
            cs[i],
        )->Ok_0.description == nodes[i].description
}

proof fn lemma_first_pass_nodes(r: ResolverModel, graph: Seq<Json>)
    requires
        first_pass(r, graph) is Ok,
    ensures
        nodes_of_items(r, class_items(graph), first_pass(r, graph)->Ok_0.0),
    decreases graph.len(),
{
    if graph.len() > 0 {
        let front = graph.drop_last();
        assert(first_pass(r, front) is Ok);
        lemma_first_pass_nodes(r, front);
        let nodes = first_pass(r, front)->Ok_0.0;
        let cs = class_items(front);
        if is_class_item(graph.last()) {
            let all = class_items(graph);
            let out = first_pass(r, graph)->Ok_0.0;
            assert(all == cs.push(graph.last()));
            assert(out == nodes.push(node_of(r, graph.last())->Ok_0));
            assert forall|i: int| 0 <= i < all.len() implies (#[trigger] node_of(r, all[i])) is Ok && node_of(
                r,
                all[i],
            )->Ok_0.id == out[i].id && node_of(r, all[i])->Ok_0.name == out[i].name && node_of(
                r,
                all[i],
            )->Ok_0.description == out[i].description by {
                if i < cs.len() {
                    assert(all[i] == cs[i]);
                    assert(out[i] == nodes[i]);
                }
            }
        }
    }
}

/// The classes of a parsed ontology are the class items of its `@graph`, in
/// order: each with the resolved `@id`, the `rdfs:label` or else the
/// resolved short name, and the `rdfs:comment`.
pub proof fn law_nodes_are_the_class_items(value: Json)
    requires
        parse_ontology(value) is Ok,
    ensures
        value.get("@graph"@) matches Some(Json::Array(graph)) && nodes_of_items(
            resolver_of(context_of(value)),
            class_items(graph),
            parse_ontology(value)->Ok_0.nodes,
        ),
{
    let graph = value.get("@graph"@)->Some_0->Array_0;
    let r = resolver_of(context_of(value));
    let (nodes, nested) = first_pass(r, graph)->Ok_0;
    lemma_first_pass_nodes(r, graph);
    let (edges, props) = properties_and_edges(r, names_by_id(nodes), nested + graph)->Ok_0;
    let o = parse_ontology(value)->Ok_0;
    let cs = class_items(graph);
    assert forall|i: int| 0 <= i < cs.len() implies (#[trigger] node_of(r, cs[i])) is Ok && node_of(r, cs[i])->Ok_0.id
        == o.nodes[i].id && node_of(r, cs[i])->Ok_0.name == o.nodes[i].name && node_of(
        r,
        cs[i],
    )->Ok_0.description == o.nodes[i].description by {
        assert(o.nodes[i] == with_properties(nodes[i], props));
    }
}

proof fn lemma_defs_hold_every_node(nodes: Seq<NodeModel>)
    ensures
        defs_schema(nodes) is Object,
        forall|i: int|
            0 <= i < nodes.len() ==> (#[trigger] defs_schema(nodes).get(nodes[i].name)) is Some,
    decreases nodes.len(),
{
    if nodes.len() > 0 {
        let front = nodes.drop_last();
        lemma_defs_hold_every_node(front);
        let last = nodes.last();
        let ms = defs_schema(front)->Object_0;
        assert forall|i: int| 0 <= i < nodes.len() implies (#[trigger] defs_schema(nodes).get(
            nodes[i].name,
        )) is Some by {
            lemma_members_set_get(ms, last.name, node_schema(last), nodes[i].name);
            if i < front.len() {
                assert(front[i] == nodes[i]);
                assert(defs_schema(front).get(front[i].name) is Some);
            }
        }
    }
}

/// The JSON Schema of an ontology defines, under `$defs`, the shared
/// `EntityRef` and every class by its name.
pub proof fn law_schema_defines_every_class(o: OntologyModel)
    ensures
        ontology_schema(o).get("$defs"@) is Some,
        ontology_schema(o).get("$defs"@)->Some_0.get("EntityRef"@) == Some(entity_ref_schema()),
        forall|i: int|
            0 <= i < o.nodes.len() ==> (#[trigger] ontology_schema(o).get("$defs"@)->Some_0.get(
                o.nodes[i].name,
            )) is Some,
{
    lemma_defs_hold_every_node(o.nodes);
    let ms = defs_schema(o.nodes)->Object_0;
    let defs = set_member(defs_schema(o.nodes), "EntityRef"@, entity_ref_schema());
    lemma_members_set_get(Seq::empty(), "$defs"@, defs, "$defs"@);
    assert(ontology_schema(o).get("$defs"@) == Some(defs));
    lemma_members_set_get(ms, "EntityRef"@, entity_ref_schema(), "EntityRef"@);
    assert forall|i: int| 0 <= i < o.nodes.len() implies (#[trigger] ontology_schema(o).get(
        "$defs"@,
    )->Some_0.get(o.nodes[i].name)) is Some by {
        lemma_members_set_get(ms, "EntityRef"@, entity_ref_schema(), o.nodes[i].name);
        assert(defs_schema(o.nodes).get(o.nodes[i].name) is Some);
    }
}

/// `s` ends in `/`.
pub open spec fn ends_in_slash(s: Seq<char>) -> bool {
    s.len() > 0 && s.last() == '/'
}

proof fn lemma_declared_bases_end_in_slash(members: Seq<(Seq<char>, Json)>)
    ensures
        forall|k: Seq<char>| #[trigger] declarations(members).0.contains_key(k) ==> ends_in_slash(
            declarations(members).0[k],
        ),
    decreases members.len(),
{
    if members.len() > 0 {
        lemma_declared_bases_end_in_slash(members.drop_last());
        let before = declarations(members.drop_last()).0;
        let after = declarations(members).0;
        assert forall|k: Seq<char>| #[trigger] after.contains_key(k) implies ends_in_slash(after[k]) by {
            if !before.contains_key(k) || after[k] != before[k] {
                let (key, val) = members.last();
                let s = val->Str_0;
                assert(after[k] == with_trailing_slash(s));
            }
        }
    }
}

/// The base that a namespace prefix resolves to always ends in `/`, so that
/// a local name can follow it directly.
pub proof fn law_prefix_bases_end_in_slash(context: Option<Seq<(Seq<char>, Json)>>, prefix: Seq<char>)
    ensures
        prefix_base(
            resolver_of(context).prefixes,
            resolver_of(context).aliases,
            prefix,
            resolver_of(context).fuel,
        ) matches Some(b) ==> ends_in_slash(b),
{
    if let Some(members) = context {
        lemma_declared_bases_end_in_slash(members);
    }
}

/// Looking a class up by name finds a class with that name, and finds one
/// whenever the ontology has a class so named.
pub proof fn law_node_lookup(nodes: Seq<NodeModel>, name: Seq<char>)
    ensures
        node_named(nodes, name) matches Some(n) ==> n.name == name && nodes.contains(n),
        names_a_node(nodes, name) ==> node_named(nodes, name) is Some,
    decreases nodes.len(),
{
    if nodes.len() > 0 {
        let t = nodes.drop_first();
        law_node_lookup(t, name);
        if nodes[0].name != name {
            if let Some(n) = node_named(t, name) {
                let k = choose|k: int| 0 <= k < t.len() && t[k] == n;
                assert(nodes[k + 1] == n);
            }
            if names_a_node(nodes, name) {
                let i = choose|i: int| 0 <= i < nodes.len() && #[trigger] nodes[i].name == name;
                assert(t[i - 1].name == name);
            }
        } else {
            assert(nodes[0] == nodes[0]);
            assert(nodes.contains(nodes[0]));
        }
    }
}

/// Some edge is called `name`.
pub open spec fn has_edge_named(edges: Seq<EdgeModel>, name: Seq<char>) -> bool {
    exists|k: int| 0 <= k < edges.len() && #[trigger] edges[k].name == name
}

/// Every reference property of `ps` refers by its own name to an edge of
/// that name.
pub open spec fn references_match_edges(ps: Seq<PropertyModel>, edges: Seq<EdgeModel>) -> bool {
    forall|j: int|
        0 <= j < ps.len() ==> ((#[trigger] ps[j]).range matches RangeModel::Reference(x) ==> x == ps[j].name
            && has_edge_named(edges, ps[j].name))
}

proof fn lemma_references_grow(ps: Seq<PropertyModel>, edges: Seq<EdgeModel>, more: Seq<EdgeModel>)
    requires
        references_match_edges(ps, edges),
        more.len() >= edges.len(),
        forall|k: int| 0 <= k < edges.len() ==> more[k] == edges[k],
    ensures
        references_match_edges(ps, more),
{
    assert forall|j: int| 0 <= j < ps.len() && (#[trigger] ps[j]).range is Reference implies has_edge_named(more, ps[j].name) by {
        let k = choose|k: int| 0 <= k < edges.len() && #[trigger] edges[k].name == ps[j].name;
        assert(more[k] == edges[k]);
    }
}

proof fn lemma_pae_references(r: ResolverModel, ids: Map<Seq<char>, Seq<char>>, entries: Seq<Json>)
    requires
        properties_and_edges(r, ids, entries) is Ok,
    ensures
        forall|key: Seq<char>| #[trigger] properties_and_edges(r, ids, entries)->Ok_0.1.contains_key(key)
            ==> references_match_edges(
            properties_and_edges(r, ids, entries)->Ok_0.1[key],
            properties_and_edges(r, ids, entries)->Ok_0.0,
        ),
    decreases entries.len(),
{
    if entries.len() > 0 {
        let front = entries.drop_last();
        lemma_pae_references(r, ids, front);
        let acc = properties_and_edges(r, ids, front)->Ok_0;
        let item = entries.last();
        let out = property_step(r, ids, acc, item)->Ok_0;
        assert(properties_and_edges(r, ids, entries) == property_step(r, ids, acc, item));
        assert(out.0.len() >= acc.0.len());
        assert forall|k: int| 0 <= k < acc.0.len() implies out.0[k] == acc.0[k] by {}
        if is_property_type(type_of(item)) {
            let label = label_of(r, item)->Some_0;
            let domain = domain_of(r, item);
            let (is_scalar, raw) = range_of(item, "property "@, label)->Ok_0;
            if !is_scalar {
                assert(out.0.last().name == label);
                assert(has_edge_named(out.0, label)) by {
                    assert(out.0[out.0.len() - 1].name == label);
                }
            }
        }
        assert forall|key: Seq<char>| #[trigger] out.1.contains_key(key) implies references_match_edges(out.1[key], out.0) by {
            if acc.1.contains_key(key) {
                lemma_references_grow(acc.1[key], acc.0, out.0);
            }
            if out.1.contains_key(key) && (!acc.1.contains_key(key) || out.1[key] != acc.1[key]) {
                let old = if acc.1.contains_key(key) { acc.1[key] } else { Seq::empty() };
                let ps = out.1[key];
                assert(ps.drop_last() == old);
                assert forall|j: int| 0 <= j < ps.len() && (#[trigger] ps[j]).range matches RangeModel::Reference(x)
                    implies ps[j].range->Reference_0 == ps[j].name && has_edge_named(out.0, ps[j].name) by {
                    if j < old.len() {
                        assert(ps[j] == old[j]);
                    }
                }
            }
        }
    }
}

proof fn lemma_first_pass_empty_properties(r: ResolverModel, graph: Seq<Json>)
    requires
        first_pass(r, graph) is Ok,
    ensures
        forall|i: int|
            0 <= i < first_pass(r, graph)->Ok_0.0.len() ==> (#[trigger] first_pass(r, graph)->Ok_0.0[i]).properties.len() == 0,
    decreases graph.len(),
{
    if graph.len() > 0 {
        lemma_first_pass_empty_properties(r, graph.drop_last());
    }
}

/// Every reference property of a parsed ontology carries its own name, and
/// the ontology has an edge of that name.
pub proof fn law_reference_properties_have_edges(value: Json)
    requires
        parse_ontology(value) is Ok,
    ensures
        forall|i: int|
            0 <= i < parse_ontology(value)->Ok_0.nodes.len() ==> references_match_edges(
                (#[trigger] parse_ontology(value)->Ok_0.nodes[i]).properties,
                parse_ontology(value)->Ok_0.edges,
            ),
{
    let o = parse_ontology(value)->Ok_0;
    let graph = value.get("@graph"@)->Some_0->Array_0;
    let r = resolver_of(context_of(value));
    let (nodes, nested) = first_pass(r, graph)->Ok_0;
    lemma_first_pass_empty_properties(r, graph);
    lemma_pae_references(r, names_by_id(nodes), nested + graph);
    let (edges, props) = properties_and_edges(r, names_by_id(nodes), nested + graph)->Ok_0;
    assert forall|i: int| 0 <= i < o.nodes.len() implies references_match_edges(
        (#[trigger] o.nodes[i]).properties,
        o.edges,
    ) by {
        assert(o.nodes[i] == with_properties(nodes[i], props));
        if !props.contains_key(nodes[i].id) {
            assert(nodes[i].properties.len() == 0);
        }
    }
}

} // verus!
