//! Parsing an ontology from a JSON-LD document.

use vstd::prelude::*;

use crate::assoc::{entries_map, lemma_entries_map_absent, lemma_entries_map_last, lemma_entries_map_update_last, StrMap};
use crate::json::{lemma_array_model, lemma_object_model, set_member, values_model, Json, JsonValue};
use crate::ontology::model::{nodes_model, edges_model, opt_model, copy_opt, copy_properties, properties_model, Edge, EdgeModel, ErrorModel, Node, NodeModel, Ontology, OntologyError, OntologyModel, Property, PropertyModel, PropertyRange, RangeModel};
use crate::ontology::resolver::{resolve, resolve_iri, resolver_of, PrefixResolver, ResolverModel};
use crate::json_text::{json_error_text, json_text, parse_json_text};
use crate::text::{before_char, starts_with, str_before_char, str_eq, str_starts_with, to_owned};

verus! {

// ---------------------------------------------------------------------------
// The specification
// ---------------------------------------------------------------------------

pub open spec fn is_class_type(t: Seq<char>) -> bool {
    t == "rdfs:Class"@ || t == "owl:Class"@
}

pub open spec fn is_class_value(v: Json) -> bool {
    match v {
        Json::Str(t) => is_class_type(t),
        _ => false,
    }
}

pub open spec fn any_class_value(ts: Seq<Json>) -> bool {
    exists|i: int| 0 <= i < ts.len() && is_class_value(#[trigger] ts[i])
}

/// An item of `@graph` is a class when its `@type` is `rdfs:Class` or
/// `owl:Class`, or an array holding one of them.
pub open spec fn is_class_item(item: Json) -> bool {
    match item.get("@type"@) {
        Some(Json::Str(t)) => is_class_type(t),
        Some(Json::Array(ts)) => any_class_value(ts),
        _ => false,
    }
}

/// The node that a class item gives.
pub open spec fn node_of(r: ResolverModel, item: Json) -> Result<NodeModel, ErrorModel> {
    match item.get_str("@id"@) {
        None => Err(ErrorModel::InvalidJsonLd("class missing '@id'"@)),
        Some(raw) => Ok(
            NodeModel {
                id: resolve_iri(r, raw),
                name: match item.get_str("rdfs:label"@) {
                    Some(l) => l,
                    None => resolve(r, raw),
                },
                description: item.get_str("rdfs:comment"@),
                properties: Seq::empty(),
            },
        ),
    }
}

/// A property nested under a class, with the class as its domain unless it
/// names a (non-null) domain of its own.
pub open spec fn with_domain(prop: Json, class_id: Seq<char>) -> Json {
    let has_domain = match prop.get("rdfs:domain"@) {
        Some(d) => !d.is_null(),
        None => false,
    };
    if has_domain {
        prop
    } else {
        set_member(prop, "rdfs:domain"@, Json::Object(seq![("@id"@, Json::Str(class_id))]))
    }
}

/// The property entries nested under a class item's `properties` array.
pub open spec fn hoisted(item: Json) -> Seq<Json> {
    match (item.get("properties"@), item.get_str("@id"@)) {
        (Some(Json::Array(props)), Some(id)) => Seq::new(
            props.len(),
            |i: int| with_domain(props[i], id),
        ),
        (Some(Json::Array(props)), None) => props,
        _ => Seq::empty(),
    }
}

/// The first pass: the nodes of the class items, and the property entries
/// nested under them.
pub open spec fn first_pass(r: ResolverModel, graph: Seq<Json>) -> Result<
    (Seq<NodeModel>, Seq<Json>),
    ErrorModel,
>
    decreases graph.len(),
{
    if graph.len() == 0 {
        Ok((Seq::empty(), Seq::empty()))
    } else {
        match first_pass(r, graph.drop_last()) {
            Err(e) => Err(e),
            Ok((nodes, nested)) => {
                let item = graph.last();
                if is_class_item(item) {
                    match node_of(r, item) {
                        Err(e) => Err(e),
                        Ok(n) => Ok((nodes.push(n), nested + hoisted(item))),
                    }
                } else {
                    Ok((nodes, nested))
                }
            },
        }
    }
}

/// An error in the first pass over a prefix of the graph is the error of
/// the whole pass.
pub proof fn lemma_first_pass_err(r: ResolverModel, graph: Seq<Json>, k: int)
    requires
        0 <= k <= graph.len(),
        first_pass(r, graph.take(k)) is Err,
    ensures
        first_pass(r, graph) == first_pass(r, graph.take(k)),
    decreases graph.len() - k,
{
    if k < graph.len() {
        assert(graph.take(k + 1).drop_last() =~= graph.take(k));
        lemma_first_pass_err(r, graph, k + 1);
    } else {
        assert(graph.take(k) =~= graph);
    }
}

/// A class item with an `@id` whose `properties` array holds only objects
/// and nulls (the only values that can take a domain member).
pub open spec fn nested_entries_settable(item: Json) -> bool {
    item.get_str("@id"@) is Some ==> match item.get("properties"@) {
        Some(Json::Array(props)) => forall|i: int|
            0 <= i < props.len() ==> (#[trigger] props[i] is Null || props[i] is Object),
        _ => true,
    }
}

/// Every class item that the first pass reaches can take its nested
/// properties' domains (the pass stops at the first class without `@id`).
pub open spec fn graph_settable(graph: Seq<Json>) -> bool
    decreases graph.len(),
{
    if graph.len() == 0 {
        true
    } else if is_class_item(graph[0]) {
        nested_entries_settable(graph[0]) && (graph[0].get_str("@id"@) is Some ==> graph_settable(
            graph.drop_first(),
        ))
    } else {
        graph_settable(graph.drop_first())
    }
}

/// The documents that parsing accepts without failing: those whose first
/// pass can attach a domain to every nested property it reaches.
pub open spec fn jsonld_settable(value: Json) -> bool {
    match value.get("@graph"@) {
        Some(Json::Array(graph)) => value is Object ==> graph_settable(graph),
        _ => true,
    }
}

/// Class id -> class name; a later class with the same id wins.
pub open spec fn names_by_id(nodes: Seq<NodeModel>) -> Map<Seq<char>, Seq<char>>
    decreases nodes.len(),
{
    if nodes.len() == 0 {
        Map::empty()
    } else {
        names_by_id(nodes.drop_last()).insert(nodes.last().id, nodes.last().name)
    }
}

pub open spec fn is_property_type(t: Seq<char>) -> bool {
    t == "owl:ObjectProperty"@ || t == "owl:DatatypeProperty"@ || t == "rdf:Property"@
}

/// An entry's `@type` when it is a string, else the empty string.
pub open spec fn type_of(item: Json) -> Seq<char> {
    match item.get_str("@type"@) {
        Some(t) => t,
        None => Seq::empty(),
    }
}

/// An entry's label: its `rdfs:label`, or the short name of its `@id`.
pub open spec fn label_of(r: ResolverModel, item: Json) -> Option<Seq<char>> {
    match item.get_str("rdfs:label"@) {
        Some(l) => Some(l),
        None => match item.get_str("@id"@) {
            Some(id) => Some(resolve(r, id)),
            None => None,
        },
    }
}

/// The full IRI of an entry's `rdfs:domain`, or the empty string.
pub open spec fn domain_of(r: ResolverModel, item: Json) -> Seq<char> {
    match item.get("rdfs:domain"@) {
        Some(d) => match d.get_str("@id"@) {
            Some(id) => resolve_iri(r, id),
            None => Seq::empty(),
        },
        None => Seq::empty(),
    }
}

/// The message for an object range without `@id`.
pub open spec fn range_error(what: Seq<char>, label: Seq<char>) -> ErrorModel {
    ErrorModel::InvalidJsonLd(what + "'"@ + label + "' has object range without '@id'"@)
}

/// An entry's range: whether it is an `xsd:` scalar, and its raw term. A
/// missing range is `xsd:string`.
pub open spec fn range_of(item: Json, what: Seq<char>, label: Seq<char>) -> Result<
    (bool, Seq<char>),
    ErrorModel,
> {
    match item.get("rdfs:range"@) {
        Some(Json::Str(s)) => Ok((starts_with(s, "xsd:"@), s)),
        Some(Json::Object(ms)) => match Json::Object(ms).get_str("@id"@) {
            Some(raw) => Ok((starts_with(raw, "xsd:"@), raw)),
            None => Err(range_error(what, label)),
        },
        _ => Ok((true, "xsd:string"@)),
    }
}

pub open spec fn unknown_label() -> ErrorModel {
    ErrorModel::MissingPropertyLabel("<unknown>"@)
}

/// The scalar properties of an edge, from its own `properties` array.
pub open spec fn edge_props_of(r: ResolverModel, props: Seq<Json>) -> Result<
    Seq<PropertyModel>,
    ErrorModel,
>
    decreases props.len(),
{
    if props.len() == 0 {
        Ok(Seq::empty())
    } else {
        match edge_props_of(r, props.drop_last()) {
            Err(e) => Err(e),
            Ok(acc) => {
                let prop = props.last();
                match label_of(r, prop) {
                    None => Err(unknown_label()),
                    Some(label) => match range_of(prop, "edge property "@, label) {
                        Err(e) => Err(e),
                        Ok((is_scalar, raw)) => if is_scalar {
                            Ok(
                                acc.push(
                                    PropertyModel {
                                        name: label,
                                        description: prop.get_str("rdfs:comment"@),
                                        range: RangeModel::Scalar(raw),
                                    },
                                ),
                            )
                        } else {
                            Ok(acc)
                        },
                    },
                }
            },
        }
    }
}

pub open spec fn edge_properties_of(r: ResolverModel, item: Json) -> Result<
    Seq<PropertyModel>,
    ErrorModel,
> {
    match item.get("properties"@) {
        Some(Json::Array(props)) => edge_props_of(r, props),
        _ => Ok(Seq::empty()),
    }
}

/// Domain IRI -> the properties scoped to it, in order.
pub type PropertyMap = Map<Seq<char>, Seq<PropertyModel>>;

/// Add a property to its domain's list; a property without domain is kept
/// nowhere.
pub open spec fn attach(props: PropertyMap, domain: Seq<char>, p: PropertyModel) -> PropertyMap {
    if domain.len() == 0 {
        props
    } else {
        props.insert(
            domain,
            (if props.contains_key(domain) {
                props[domain]
            } else {
                Seq::empty()
            }).push(p),
        )
    }
}

/// What one property entry adds: a property on its domain, and an edge
/// when its range is a class.
pub open spec fn property_step(
    r: ResolverModel,
    ids: Map<Seq<char>, Seq<char>>,
    acc: (Seq<EdgeModel>, PropertyMap),
    item: Json,
) -> Result<(Seq<EdgeModel>, PropertyMap), ErrorModel> {
    if !is_property_type(type_of(item)) {
        Ok(acc)
    } else {
        match label_of(r, item) {
            None => Err(unknown_label()),
            Some(label) => {
                let description = item.get_str("rdfs:comment"@);
                let domain = domain_of(r, item);
                match range_of(item, "property "@, label) {
                    Err(e) => Err(e),
                    Ok((is_scalar, raw)) => {
                        let range_iri = resolve_iri(r, raw);
                        match edge_properties_of(r, item) {
                            Err(e) => Err(e),
                            Ok(edge_props) => if is_scalar {
                                Ok(
                                    (
                                        acc.0,
                                        attach(
                                            acc.1,
                                            domain,
                                            PropertyModel {
                                                name: label,
                                                description,
                                                range: RangeModel::Scalar(raw),
                                            },
                                        ),
                                    ),
                                )
                            } else if !ids.contains_key(range_iri) {
                                Err(
                                    ErrorModel::UnknownReference {
                                        property: label,
                                        class: domain,
                                        reference: range_iri,
                                    },
                                )
                            } else {
                                let from = if ids.contains_key(domain) {
                                    ids[domain]
                                } else {
                                    before_char(domain, '/')
                                };
                                Ok(
                                    (
                                        acc.0.push(
                                            EdgeModel {
                                                name: label,
                                                from,
                                                to: ids[range_iri],
                                                description,
                                                properties: edge_props,
                                            },
                                        ),
                                        attach(
                                            acc.1,
                                            domain,
                                            PropertyModel {
                                                name: label,
                                                description,
                                                range: RangeModel::Reference(label),
                                            },
                                        ),
                                    ),
                                )
                            },
                        }
                    },
                }
            },
        }
    }
}

/// The second pass over all property entries.
pub open spec fn properties_and_edges(
    r: ResolverModel,
    ids: Map<Seq<char>, Seq<char>>,
    entries: Seq<Json>,
) -> Result<(Seq<EdgeModel>, PropertyMap), ErrorModel>
    decreases entries.len(),
{
    if entries.len() == 0 {
        Ok((Seq::empty(), Map::empty()))
    } else {
        match properties_and_edges(r, ids, entries.drop_last()) {
            Err(e) => Err(e),
            Ok(acc) => property_step(r, ids, acc, entries.last()),
        }
    }
}

/// A node with the properties scoped to its id.
pub open spec fn with_properties(n: NodeModel, props: PropertyMap) -> NodeModel {
    if props.contains_key(n.id) {
        NodeModel { properties: props[n.id], ..n }
    } else {
        n
    }
}

pub open spec fn context_of(value: Json) -> Option<Seq<(Seq<char>, Json)>> {
    match value.get("@context"@) {
        Some(Json::Object(ms)) => Some(ms),
        _ => None,
    }
}

/// The ontology that a JSON-LD document describes.
pub open spec fn parse_ontology(value: Json) -> Result<OntologyModel, ErrorModel> {
    if !(value is Object) {
        Err(ErrorModel::InvalidJsonLd("root must be an object"@))
    } else {
        match value.get("@graph"@) {
            Some(Json::Array(graph)) => {
                let r = resolver_of(context_of(value));
                match first_pass(r, graph) {
                    Err(e) => Err(e),
                    Ok((nodes, nested)) => if nodes.len() == 0 {
                        Err(ErrorModel::EmptyOntology)
                    } else {
                        match properties_and_edges(r, names_by_id(nodes), nested + graph) {
                            Err(e) => Err(e),
                            Ok((edges, props)) => Ok(
                                OntologyModel {
                                    nodes: Seq::new(
                                        nodes.len(),
                                        |i: int| with_properties(nodes[i], props),
                                    ),
                                    edges,
                                },
                            ),
                        }
                    },
                }
            },
            _ => Err(ErrorModel::MissingGraph),
        }
    }
}

// ---------------------------------------------------------------------------
// Parsing
// ---------------------------------------------------------------------------

/// Whether `item` is a class.
pub fn is_class(item: &JsonValue) -> (r: bool)
    ensures
        r == is_class_item(item@),
{
    match item.get("@type") {
        Some(JsonValue::String(t)) => str_eq(t.as_str(), "rdfs:Class") || str_eq(t.as_str(), "owl:Class"),
        Some(JsonValue::Array(ts)) => {
            proof {
                lemma_array_model(*ts);
            }
            let ghost tm = values_model(ts@);
            for i in 0..ts.len()
                invariant
                    tm == values_model(ts@),
                    item@.get("@type"@) == Some(Json::Array(tm)),
                    forall|j: int| 0 <= j < i ==> !is_class_value(#[trigger] tm[j]),
            {
                match ts[i].as_str() {
                    Some(t) => {
                        if str_eq(t, "rdfs:Class") || str_eq(t, "owl:Class") {
                            assert(is_class_value(tm[i as int]));
                            assert(any_class_value(tm));
                            return true;
                        }
                    },
                    None => {},
                }
            }
            false
        },
        _ => false,
    }
}

/// Parse one class item into a node.
pub fn parse_node(item: &JsonValue, resolver: &PrefixResolver) -> (r: Result<Node, OntologyError>)
    ensures
        match (r, node_of(resolver@, item@)) {
            (Ok(n), Ok(m)) => n@ == m,
            (Err(e), Err(f)) => e@ == f,
            _ => false,
        },
{
    let raw = match item.get_str("@id") {
        Some(raw) => raw,
        None => {
            return Err(OntologyError::InvalidJsonLd(to_owned("class missing '@id'")));
        },
    };
    let id = resolver.resolve_iri(raw);
    let name = match item.get_str("rdfs:label") {
        Some(label) => to_owned(label),
        None => resolver.resolve(raw),
    };
    let description = match item.get_str("rdfs:comment") {
        Some(d) => Some(to_owned(d)),
        None => None,
    };
    let properties: Vec<Property> = Vec::new();
    assert(properties_model(properties@) =~= Seq::<PropertyModel>::empty());
    Ok(Node { id, name, description, properties })
}

/// Append the property entries nested under a class item, each with the
/// class as its domain unless it has one.
fn hoist_into(item: &JsonValue, out: &mut Vec<JsonValue>)
    ensures
        values_model(final(out)@) == values_model(old(out)@) + hoisted(item@),
{
    let ghost start = values_model(out@);
    let class_id = item.get_str("@id");
    match item.get("properties") {
        Some(JsonValue::Array(props)) => {
            proof {
                lemma_array_model(*props);
            }
            let ghost pm = values_model(props@);
            let ghost h = hoisted(item@);
            for i in 0..props.len()
                invariant
                    pm == values_model(props@),
                    h == hoisted(item@),
                    item@.get("properties"@) == Some(Json::Array(pm)),
                    match class_id {
                        Some(id) => item@.get_str("@id"@) == Some(id@),
                        None => item@.get_str("@id"@) is None,
                    },
                    values_model(out@) == start + h.take(i as int),
            {
                let ghost before = out@;
                let mut entry = props[i].deep_copy();
                match class_id {
                    Some(id) => {
                        let has_domain = match entry.get("rdfs:domain") {
                            Some(d) => !d.is_null(),
                            None => false,
                        };
                        if !has_domain {
                            let mut domain = JsonValue::new_object();
                            domain.set(to_owned("@id"), JsonValue::String(to_owned(id)));
                            assert(domain@ == Json::Object(seq![("@id"@, Json::Str(id@))]));
                            entry.set(to_owned("rdfs:domain"), domain);
                        }
                        assert(entry@ == h[i as int]);
                    },
                    None => {
                        assert(entry@ == h[i as int]);
                    },
                }
                out.push(entry);
                assert(values_model(out@) =~= values_model(before).push(h[i as int]));
                assert(h.take(i + 1) =~= h.take(i as int).push(h[i as int]));
                assert(values_model(out@) =~= start + h.take(i + 1));
            }
            assert(h.take(props.len() as int) =~= h);
        },
        _ => {
            assert(values_model(out@) =~= start + hoisted(item@));
        },
    }
}

/// The nodes of the class items, and the property entries nested under them.
fn collect_classes(graph: &Vec<JsonValue>, resolver: &PrefixResolver) -> (r: Result<
    (Vec<Node>, Vec<JsonValue>),
    OntologyError,
>)
    ensures
        match (r, first_pass(resolver@, values_model(graph@))) {
            (Ok(x), Ok(y)) => nodes_model(x.0@) == y.0 && values_model(x.1@) == y.1,
            (Err(e), Err(f)) => e@ == f,
            _ => false,
        },
{
    let ghost gm = values_model(graph@);
    let mut nodes: Vec<Node> = Vec::new();
    let mut nested: Vec<JsonValue> = Vec::new();
    assert(nodes_model(nodes@) =~= Seq::<NodeModel>::empty());
    assert(values_model(nested@) =~= Seq::<Json>::empty());
    for i in 0..graph.len()
        invariant
            gm == values_model(graph@),
            first_pass(resolver@, gm.take(i as int)) == Ok::<(Seq<NodeModel>, Seq<Json>), ErrorModel>(
                (nodes_model(nodes@), values_model(nested@)),
            ),
    {
        assert(gm.take(i + 1).drop_last() =~= gm.take(i as int));
        let item = &graph[i];
        if is_class(item) {
            match parse_node(item, resolver) {
                Ok(node) => {
                    let ghost before = nodes@;
                    nodes.push(node);
                    assert(nodes_model(nodes@) =~= nodes_model(before).push(node@));
                    hoist_into(item, &mut nested);
                },
                Err(e) => {
                    proof {
                        lemma_first_pass_err(resolver@, gm, i + 1);
                    }
                    return Err(e);
                },
            }
        }
    }
    assert(gm.take(graph.len() as int) =~= gm);
    Ok((nodes, nested))
}

/// An entry's label: its `rdfs:label`, or the short name of its `@id`.
fn entry_label(resolver: &PrefixResolver, item: &JsonValue) -> (r: Option<String>)
    ensures
        match r {
            Some(l) => label_of(resolver@, item@) == Some(l@),
            None => label_of(resolver@, item@) is None,
        },
{
    match item.get_str("rdfs:label") {
        Some(l) => Some(to_owned(l)),
        None => match item.get_str("@id") {
            Some(id) => Some(resolver.resolve(id)),
            None => None,
        },
    }
}

fn entry_description(item: &JsonValue) -> (r: Option<String>)
    ensures
        opt_model(r) == item@.get_str("rdfs:comment"@),
{
    match item.get_str("rdfs:comment") {
        Some(d) => Some(to_owned(d)),
        None => None,
    }
}

/// The full IRI of an entry's `rdfs:domain`, or the empty string.
fn entry_domain(resolver: &PrefixResolver, item: &JsonValue) -> (r: String)
    ensures
        r@ == domain_of(resolver@, item@),
{
    match item.get("rdfs:domain") {
        Some(d) => match d.get_str("@id") {
            Some(id) => resolver.resolve_iri(id),
            None => String::new(),
        },
        None => String::new(),
    }
}

/// An entry's range: whether it is an `xsd:` scalar, and its raw term.
fn entry_range(item: &JsonValue, what: &str, label: &str) -> (r: Result<(bool, String), OntologyError>)
    ensures
        match (r, range_of(item@, what@, label@)) {
            (Ok(x), Ok(y)) => x.0 == y.0 && x.1@ == y.1,
            (Err(e), Err(f)) => e@ == f,
            _ => false,
        },
{
    match item.get("rdfs:range") {
        Some(JsonValue::String(s)) => Ok((str_starts_with(s.as_str(), "xsd:"), to_owned(s.as_str()))),
        Some(v) => {
            match v {
                JsonValue::Object(_) => match v.get_str("@id") {
                    Some(raw) => Ok((str_starts_with(raw, "xsd:"), to_owned(raw))),
                    None => {
                        let mut m = to_owned(what);
                        m.append("'");
                        m.append(label);
                        m.append("' has object range without '@id'");
                        Err(OntologyError::InvalidJsonLd(m))
                    },
                },
                _ => Ok((true, to_owned("xsd:string"))),
            }
        },
        None => Ok((true, to_owned("xsd:string"))),
    }
}

/// Extract scalar properties nested under an edge entry's `properties` array.
fn extract_edge_properties(resolver: &PrefixResolver, item: &JsonValue) -> (r: Result<
    Vec<Property>,
    OntologyError,
>)
    ensures
        match (r, edge_properties_of(resolver@, item@)) {
            (Ok(x), Ok(y)) => properties_model(x@) == y,
            (Err(e), Err(f)) => e@ == f,
            _ => false,
        },
{
    let nested = match item.get("properties") {
        Some(JsonValue::Array(props)) => props,
        _ => {
            let v: Vec<Property> = Vec::new();
            assert(properties_model(v@) =~= Seq::<PropertyModel>::empty());
            return Ok(v);
        },
    };
    proof {
        lemma_array_model(*nested);
    }
    let ghost pm = values_model(nested@);
    let mut edge_props: Vec<Property> = Vec::new();
    assert(properties_model(edge_props@) =~= Seq::<PropertyModel>::empty());
    for i in 0..nested.len()
        invariant
            pm == values_model(nested@),
            item@.get("properties"@) == Some(Json::Array(pm)),
            edge_props_of(resolver@, pm.take(i as int)) == Ok::<Seq<PropertyModel>, ErrorModel>(
                properties_model(edge_props@),
            ),
    {
        assert(pm.take(i + 1).drop_last() =~= pm.take(i as int));
        let prop = &nested[i];
        let label = match entry_label(resolver, prop) {
            Some(l) => l,
            None => {
                proof {
                    lemma_edge_props_err(resolver@, pm, i + 1);
                }
                return Err(OntologyError::MissingPropertyLabel(to_owned("<unknown>")));
            },
        };
        let description = entry_description(prop);
        match entry_range(prop, "edge property ", label.as_str()) {
            Ok((is_scalar, raw)) => {
                if is_scalar {
                    let ghost before = edge_props@;
                    let p = Property { name: label, description, range: PropertyRange::Scalar(raw) };
                    edge_props.push(p);
                    assert(properties_model(edge_props@) =~= properties_model(before).push(p@));
                }
            },
            Err(e) => {
                proof {
                    lemma_edge_props_err(resolver@, pm, i + 1);
                }
                return Err(e);
            },
        }
    }
    assert(pm.take(nested.len() as int) =~= pm);
    Ok(edge_props)
}

pub proof fn lemma_edge_props_err(r: ResolverModel, props: Seq<Json>, k: int)
    requires
        0 <= k <= props.len(),
        edge_props_of(r, props.take(k)) is Err,
    ensures
        edge_props_of(r, props) == edge_props_of(r, props.take(k)),
    decreases props.len() - k,
{
    if k < props.len() {
        assert(props.take(k + 1).drop_last() =~= props.take(k));
        lemma_edge_props_err(r, props, k + 1);
    } else {
        assert(props.take(k) =~= props);
    }
}

pub proof fn lemma_properties_and_edges_err(
    r: ResolverModel,
    ids: Map<Seq<char>, Seq<char>>,
    entries: Seq<Json>,
    k: int,
)
    requires
        0 <= k <= entries.len(),
        properties_and_edges(r, ids, entries.take(k)) is Err,
    ensures
        properties_and_edges(r, ids, entries) == properties_and_edges(r, ids, entries.take(k)),
    decreases entries.len() - k,
{
    if k < entries.len() {
        assert(entries.take(k + 1).drop_last() =~= entries.take(k));
        lemma_properties_and_edges_err(r, ids, entries, k + 1);
    } else {
        assert(entries.take(k) =~= entries);
    }
}

/// Domain IRI -> the properties scoped to it.
struct PropertyTable {
    entries: Vec<(String, Vec<Property>)>,
}

spec fn table_model(v: Seq<(String, Vec<Property>)>) -> Seq<(Seq<char>, Seq<PropertyModel>)> {
    Seq::new(v.len(), |i: int| (v[i].0@, properties_model(v[i].1@)))
}

impl View for PropertyTable {
    type V = PropertyMap;

    closed spec fn view(&self) -> PropertyMap {
        entries_map(table_model(self.entries@))
    }
}

impl PropertyTable {
    fn new() -> (r: Self)
        ensures
            r@ == PropertyMap::empty(),
    {
        let r = PropertyTable { entries: Vec::new() };
        assert(table_model(r.entries@) =~= Seq::<(Seq<char>, Seq<PropertyModel>)>::empty());
        r
    }

    /// The index of the last entry for `key`.
    fn last_index(&self, key: &str) -> (r: Option<usize>)
        ensures
            match r {
                Some(i) => i < self.entries.len() && self.entries@[i as int].0@ == key@ && forall|
                    j: int,
                | i < j < self.entries.len() ==> #[trigger] self.entries@[j].0@ != key@,
                None => forall|j: int|
                    0 <= j < self.entries.len() ==> #[trigger] self.entries@[j].0@ != key@,
            },
    {
        let mut i = self.entries.len();
        while i > 0
            invariant
                i <= self.entries.len(),
                forall|j: int| i <= j < self.entries.len() ==> #[trigger] self.entries@[j].0@ != key@,
            decreases i,
        {
            if str_eq(self.entries[i - 1].0.as_str(), key) {
                return Some(i - 1);
            }
            i = i - 1;
        }
        None
    }

    fn get(&self, key: &str) -> (r: Option<&Vec<Property>>)
        ensures
            match r {
                Some(v) => self@.contains_key(key@) && self@[key@] == properties_model(v@),
                None => !self@.contains_key(key@),
            },
    {
        let ghost tm = table_model(self.entries@);
        match self.last_index(key) {
            Some(i) => {
                proof {
                    assert forall|j: int| i < j < tm.len() implies #[trigger] tm[j].0 != tm[i as int].0 by {
                        assert(tm[j].0 == self.entries@[j].0@);
                    }
                    lemma_entries_map_last(tm, i as int);
                }
                Some(&self.entries[i].1)
            },
            None => {
                proof {
                    assert forall|j: int| 0 <= j < tm.len() implies #[trigger] tm[j].0 != key@ by {
                        assert(tm[j].0 == self.entries@[j].0@);
                    }
                    lemma_entries_map_absent(tm, key@);
                }
                None
            },
        }
    }

    /// Add a property to its domain's list; an empty domain keeps nothing.
    fn attach(&mut self, domain: &str, p: Property)
        ensures
            final(self)@ == attach(old(self)@, domain@, p@),
    {
        if domain.unicode_len() == 0 {
            return;
        }
        assert(domain@.len() != 0);
        let ghost tm = table_model(self.entries@);
        let ghost pv = p@;
        match self.last_index(domain) {
            Some(i) => {
                proof {
                    assert forall|j: int| i < j < tm.len() implies #[trigger] tm[j].0 != tm[i as int].0 by {
                        assert(tm[j].0 == self.entries@[j].0@);
                    }
                    lemma_entries_map_last(tm, i as int);
                    lemma_entries_map_update_last(tm, i as int, tm[i as int].1.push(pv));
                }
                let ghost before = self.entries@;
                let (key, mut list) = self.entries.remove(i);
                let ghost old_list = list@;
                list.push(p);
                assert(properties_model(list@) =~= properties_model(old_list).push(pv));
                self.entries.insert(i, (key, list));
                assert(table_model(self.entries@) =~= tm.update(i as int, (tm[i as int].0, tm[i as int].1.push(pv))));
            },
            None => {
                proof {
                    assert forall|j: int| 0 <= j < tm.len() implies #[trigger] tm[j].0 != domain@ by {
                        assert(tm[j].0 == self.entries@[j].0@);
                    }
                    lemma_entries_map_absent(tm, domain@);
                }
                let ghost before = self.entries@;
                let mut list: Vec<Property> = Vec::new();
                list.push(p);
                assert(properties_model(list@) =~= seq![pv]);
                self.entries.push((to_owned(domain), list));
                assert(table_model(self.entries@) =~= tm.push((domain@, seq![pv])));
                assert(table_model(self.entries@).drop_last() =~= tm);
            },
        }
    }
}

/// Apply one property entry: record its property on its domain and, when
/// its range is a class, the edge it describes.
fn apply_property_entry(
    resolver: &PrefixResolver,
    ids: &StrMap,
    edges: &mut Vec<Edge>,
    table: &mut PropertyTable,
    item: &JsonValue,
) -> (r: Result<(), OntologyError>)
    ensures
        match property_step(resolver@, ids@, (edges_model(old(edges)@), old(table)@), item@) {
            Ok(acc) => r is Ok && edges_model(final(edges)@) == acc.0 && final(table)@ == acc.1,
            Err(e) => r matches Err(x) && x@ == e,
        },
{
    proof {
        reveal_strlit("");
    }
    let node_type: &str = match item.get_str("@type") {
        Some(t) => t,
        None => "",
    };
    assert(node_type@ == type_of(item@));
    if !(str_eq(node_type, "owl:ObjectProperty") || str_eq(node_type, "owl:DatatypeProperty")
        || str_eq(node_type, "rdf:Property")) {
        return Ok(());
    }
    let label = match entry_label(resolver, item) {
        Some(l) => l,
        None => {
            return Err(OntologyError::MissingPropertyLabel(to_owned("<unknown>")));
        },
    };
    let description = entry_description(item);
    let domain = entry_domain(resolver, item);
    let (is_scalar, range_raw) = match entry_range(item, "property ", label.as_str()) {
        Ok(x) => x,
        Err(e) => {
            return Err(e);
        },
    };
    let range_iri = resolver.resolve_iri(range_raw.as_str());
    let edge_properties = match extract_edge_properties(resolver, item) {
        Ok(p) => p,
        Err(e) => {
            return Err(e);
        },
    };
    if is_scalar {
        let property = Property {
            name: label,
            description,
            range: PropertyRange::Scalar(range_raw),
        };
        table.attach(domain.as_str(), property);
        return Ok(());
    }
    let to = match ids.get(range_iri.as_str()) {
        Some(name) => to_owned(name.as_str()),
        None => {
            return Err(
                OntologyError::UnknownReference { property: label, class: domain, reference: range_iri },
            );
        },
    };
    let from = match ids.get(domain.as_str()) {
        Some(name) => to_owned(name.as_str()),
        None => str_before_char(domain.as_str(), '/'),
    };
    let ghost before = edges@;
    let edge = Edge {
        name: to_owned(label.as_str()),
        from,
        to,
        description: copy_opt(&description),
        properties: edge_properties,
    };
    edges.push(edge);
    assert(edges_model(edges@) =~= edges_model(before).push(edge@));
    let property = Property {
        name: to_owned(label.as_str()),
        description,
        range: PropertyRange::Reference(label),
    };
    table.attach(domain.as_str(), property);
    Ok(())
}

/// The second pass: properties scoped by domain, and edges from reference ranges,
/// over the nested property entries and then the graph items.
fn build_properties_and_edges(
    nested: &Vec<JsonValue>,
    graph: &Vec<JsonValue>,
    resolver: &PrefixResolver,
    ids: &StrMap,
) -> (r: Result<(Vec<Edge>, PropertyTable), OntologyError>)
    ensures
        match (r, properties_and_edges(resolver@, ids@, values_model(nested@) + values_model(graph@))) {
            (Ok(x), Ok(y)) => edges_model(x.0@) == y.0 && x.1@ == y.1,
            (Err(e), Err(f)) => e@ == f,
            _ => false,
        },
{
    let ghost entries = values_model(nested@) + values_model(graph@);
    let mut edges: Vec<Edge> = Vec::new();
    let mut table = PropertyTable::new();
    assert(edges_model(edges@) =~= Seq::<EdgeModel>::empty());
    let ghost nv = values_model(nested@);
    let ghost gv = values_model(graph@);
    for k in 0..nested.len()
        invariant
            entries == nv + gv,
            nv == values_model(nested@),
            gv == values_model(graph@),
            properties_and_edges(resolver@, ids@, entries.take(k as int)) == Ok::<
                (Seq<EdgeModel>, PropertyMap),
                ErrorModel,
            >((edges_model(edges@), table@)),
    {
        assert(entries.take(k + 1).drop_last() =~= entries.take(k as int));
        assert(nested[k as int]@ == entries[k as int]);
        match apply_property_entry(resolver, ids, &mut edges, &mut table, &nested[k]) {
            Ok(()) => {},
            Err(e) => {
                proof {
                    lemma_properties_and_edges_err(resolver@, ids@, entries, k + 1);
                }
                return Err(e);
            },
        }
    }
    for k in 0..graph.len()
        invariant
            entries == nv + gv,
            nv == values_model(nested@),
            gv == values_model(graph@),
            properties_and_edges(resolver@, ids@, entries.take(nv.len() + k)) == Ok::<
                (Seq<EdgeModel>, PropertyMap),
                ErrorModel,
            >((edges_model(edges@), table@)),
    {
        assert(entries.take(nv.len() + k + 1).drop_last() =~= entries.take(nv.len() + k));
        assert(graph[k as int]@ == entries[nv.len() + k]);
        match apply_property_entry(resolver, ids, &mut edges, &mut table, &graph[k]) {
            Ok(()) => {},
            Err(e) => {
                proof {
                    lemma_properties_and_edges_err(resolver@, ids@, entries, nv.len() + k + 1);
                }
                return Err(e);
            },
        }
    }
    assert(entries.take((nv.len() + gv.len()) as int) =~= entries);
    Ok((edges, table))
}

impl Ontology {
    /// Parse an ontology from an already-parsed JSON-LD value.
    pub fn from_jsonld(value: &JsonValue) -> (r: Result<Self, OntologyError>)
        requires
            jsonld_settable(value@),
        ensures
            match (r, parse_ontology(value@)) {
                (Ok(o), Ok(m)) => o@ == m,
                (Err(e), Err(f)) => e@ == f,
                _ => false,
            },
    {
        match value {
            JsonValue::Object(_) => {},
            _ => {
                return Err(OntologyError::InvalidJsonLd(to_owned("root must be an object")));
            },
        }
        let context = match value.get("@context") {
            Some(JsonValue::Object(ms)) => {
                proof {
                    lemma_object_model(*ms);
                }
                Some(ms)
            },
            _ => None,
        };
        let graph = match value.get("@graph") {
            Some(JsonValue::Array(g)) => {
                proof {
                    lemma_array_model(*g);
                }
                g
            },
            _ => {
                return Err(OntologyError::MissingGraph);
            },
        };
        let resolver = PrefixResolver::new(context);
        assert(resolver@ == resolver_of(context_of(value@)));
        let (nodes, nested) = match collect_classes(graph, &resolver) {
            Ok(x) => x,
            Err(e) => {
                return Err(e);
            },
        };
        if nodes.len() == 0 {
            return Err(OntologyError::EmptyOntology);
        }
        let ghost nm = nodes_model(nodes@);
        let mut ids = StrMap::new();
        for i in 0..nodes.len()
            invariant
                nm == nodes_model(nodes@),
                ids@ == names_by_id(nm.take(i as int)),
        {
            assert(nm.take(i + 1).drop_last() =~= nm.take(i as int));
            ids.insert(to_owned(nodes[i].id.as_str()), to_owned(nodes[i].name.as_str()));
        }
        assert(nm.take(nodes.len() as int) =~= nm);
        let (edges, table) = match build_properties_and_edges(&nested, graph, &resolver, &ids) {
            Ok(x) => x,
            Err(e) => {
                return Err(e);
            },
        };
        let ghost props = table@;
        let mut result: Vec<Node> = Vec::new();
        for i in 0..nodes.len()
            invariant
                nm == nodes_model(nodes@),
                props == table@,
                result.len() == i,
                forall|j: int| 0 <= j < i ==> #[trigger] result@[j]@ == with_properties(nm[j], props),
        {
            let n = &nodes[i];
            let properties = match table.get(n.id.as_str()) {
                Some(p) => copy_properties(p),
                None => copy_properties(&n.properties),
            };
            let node = Node {
                id: to_owned(n.id.as_str()),
                name: to_owned(n.name.as_str()),
                description: copy_opt(&n.description),
                properties,
            };
            assert(node@ == with_properties(nm[i as int], props));
            result.push(node);
        }
        let ontology = Ontology { nodes: result, edges };
        assert(nodes_model(ontology.nodes@) =~= Seq::new(
            nm.len(),
            |i: int| with_properties(nm[i], props),
        ));
        Ok(ontology)
    }
}

/// Whether a class item's nested properties can all take a domain.
fn entries_settable(item: &JsonValue) -> (r: bool)
    ensures
        r == nested_entries_settable(item@),
{
    if item.get_str("@id").is_none() {
        return true;
    }
    match item.get("properties") {
        Some(JsonValue::Array(props)) => {
            proof {
                lemma_array_model(*props);
            }
            let ghost pm = values_model(props@);
            for i in 0..props.len()
                invariant
                    pm == values_model(props@),
                    item@.get("properties"@) == Some(Json::Array(pm)),
                    item@.get_str("@id"@) is Some,
                    forall|j: int| 0 <= j < i ==> (#[trigger] pm[j] is Null || pm[j] is Object),
            {
                match &props[i] {
                    JsonValue::Null => {},
                    JsonValue::Object(_) => {},
                    _ => {
                        assert(!(pm[i as int] is Null || pm[i as int] is Object));
                        return false;
                    },
                }
            }
            true
        },
        _ => true,
    }
}

impl Ontology {
    /// Whether [`Ontology::from_jsonld`] can take `value`: every property
    /// nested under a class that the first pass reaches must be an object
    /// or null, so that it can be given the class as its domain.
    pub fn nested_properties_settable(value: &JsonValue) -> (r: bool)
        ensures
            r == jsonld_settable(value@),
    {
        let graph = match value.get("@graph") {
            Some(JsonValue::Array(g)) => g,
            _ => {
                return true;
            },
        };
        proof {
            lemma_array_model(*graph);
        }
        let ghost gm = values_model(graph@);
        assert(gm.skip(0) =~= gm);
        for k in 0..graph.len()
            invariant
                gm == values_model(graph@),
                value@.get("@graph"@) == Some(Json::Array(gm)),
                graph_settable(gm) == graph_settable(gm.skip(k as int)),
        {
            assert(gm.skip(k as int).drop_first() =~= gm.skip(k + 1));
            assert(gm.skip(k as int)[0] == gm[k as int]);
            let item = &graph[k];
            if is_class(item) {
                if !entries_settable(item) {
                    return false;
                }
                if item.get_str("@id").is_none() {
                    return true;
                }
            }
        }
        assert(gm.skip(graph.len() as int).len() == 0);
        true
    }
}

/// What parsing JSON-LD text gives: the error of the JSON reading, or the
/// ontology of the value read.
pub open spec fn parse_ontology_text(text: Seq<char>) -> Result<OntologyModel, ErrorModel> {
    match json_text(text) {
        None => Err(ErrorModel::InvalidJsonLd(json_error_text(text))),
        Some(v) => parse_ontology(v),
    }
}

impl Ontology {
    /// Parse an ontology from a JSON-LD string.
    pub fn from_jsonld_text(text: &str) -> (r: Result<Self, OntologyError>)
        requires
            json_text(text@) matches Some(v) ==> jsonld_settable(v),
        ensures
            match (r, parse_ontology_text(text@)) {
                (Ok(o), Ok(m)) => o@ == m,
                (Err(e), Err(f)) => e@ == f,
                _ => false,
            },
    {
        match parse_json_text(text) {
            Ok(value) => Self::from_jsonld(&value),
            Err(message) => Err(OntologyError::InvalidJsonLd(message)),
        }
    }

    /// Parse an ontology from a JSON-LD string, or `None` when the text holds
    /// a nested property that cannot take its class as domain (see
    /// [`Ontology::nested_properties_settable`]).
    pub fn try_from_jsonld_text(text: &str) -> (r: Option<Result<Self, OntologyError>>)
        ensures
            r is None <==> (json_text(text@) matches Some(v) && !jsonld_settable(v)),
            r matches Some(x) ==> match (x, parse_ontology_text(text@)) {
                (Ok(o), Ok(m)) => o@ == m,
                (Err(e), Err(f)) => e@ == f,
                _ => false,
            },
    {
        match parse_json_text(text) {
            Ok(value) => {
                if !Self::nested_properties_settable(&value) {
                    return None;
                }
            },
            Err(_) => {},
        }
        Some(Self::from_jsonld_text(text))
    }
}

} // verus!
