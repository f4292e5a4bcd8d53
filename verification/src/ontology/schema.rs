//! The ontology as a JSON Schema document, and the ontology's lookups.

use vstd::prelude::*;

use crate::json::{set_member, Json, JsonValue};
use crate::ontology::model::{
    nodes_model, properties_model, ErrorModel, Node, NodeModel, Ontology, OntologyError,
    OntologyModel, Property, PropertyModel, PropertyRange, RangeModel,
};
use crate::json_text::{
    json_pretty_text, lemma_items_without_numbers, lemma_set_member_no_numbers, no_numbers,
    pretty_json_text,
};
use crate::text::{str_eq, to_owned};

verus! {

/// The JSON Schema type of an XSD scalar.
pub open spec fn scalar_type(xsd: Seq<char>) -> Seq<char> {
    if xsd == "xsd:integer"@ || xsd == "xsd:int"@ || xsd == "xsd:long"@ || xsd == "xsd:short"@ {
        "integer"@
    } else if xsd == "xsd:decimal"@ || xsd == "xsd:float"@ || xsd == "xsd:double"@ {
        "number"@
    } else if xsd == "xsd:boolean"@ {
        "boolean"@
    } else {
        "string"@
    }
}

/// An object with one member.
pub open spec fn object1(k: Seq<char>, v: Json) -> Json {
    set_member(Json::Object(Seq::empty()), k, v)
}

/// An object with two members.
pub open spec fn object2(k1: Seq<char>, v1: Json, k2: Seq<char>, v2: Json) -> Json {
    set_member(object1(k1, v1), k2, v2)
}

/// `{ "type": t }`.
pub open spec fn type_schema(t: Seq<char>) -> Json {
    object1("type"@, Json::Str(t))
}

/// A schema with its description attached, when there is one.
pub open spec fn described(schema: Json, description: Option<Seq<char>>) -> Json {
    match description {
        Some(d) => set_member(schema, "description"@, Json::Str(d)),
        None => schema,
    }
}

/// The schema of one property: its scalar type, or a reference to `EntityRef`.
pub open spec fn property_schema(p: PropertyModel) -> Json {
    described(
        match p.range {
            RangeModel::Scalar(x) => type_schema(scalar_type(x)),
            RangeModel::Reference(_) => object1("$ref"@, Json::Str("#/$defs/EntityRef"@)),
        },
        p.description,
    )
}

/// The `properties` object of a class: `id`, then each property by name.
pub open spec fn properties_schema(ps: Seq<PropertyModel>) -> Json
    decreases ps.len(),
{
    if ps.len() == 0 {
        object1("id"@, type_schema("string"@))
    } else {
        set_member(properties_schema(ps.drop_last()), ps.last().name, property_schema(ps.last()))
    }
}

/// The schema of one class.
pub open spec fn node_schema(n: NodeModel) -> Json {
    described(
        object2("type"@, Json::Str("object"@), "properties"@, properties_schema(n.properties)),
        n.description,
    )
}

/// The shared lightweight reference: an `id` and a `type`, both required.
pub open spec fn entity_ref_schema() -> Json {
    set_member(
        object2(
            "type"@,
            Json::Str("object"@),
            "properties"@,
            object2("id"@, type_schema("string"@), "type"@, type_schema("string"@)),
        ),
        "required"@,
        Json::Array(seq![Json::Str("id"@), Json::Str("type"@)]),
    )
}

/// `$defs`: each class by name, in order.
pub open spec fn defs_schema(nodes: Seq<NodeModel>) -> Json
    decreases nodes.len(),
{
    if nodes.len() == 0 {
        Json::Object(Seq::empty())
    } else {
        set_member(defs_schema(nodes.drop_last()), nodes.last().name, node_schema(nodes.last()))
    }
}

/// The ontology as a JSON Schema document: the classes and `EntityRef` under `$defs`.
pub open spec fn ontology_schema(o: OntologyModel) -> Json {
    object1("$defs"@, set_member(defs_schema(o.nodes), "EntityRef"@, entity_ref_schema()))
}

/// The first node named `name`.
pub open spec fn node_named(nodes: Seq<NodeModel>, name: Seq<char>) -> Option<NodeModel>
    decreases nodes.len(),
{
    if nodes.len() == 0 {
        None
    } else if nodes[0].name == name {
        Some(nodes[0])
    } else {
        node_named(nodes.drop_first(), name)
    }
}

pub open spec fn strs_model(v: Seq<&str>) -> Seq<Seq<char>> {
    Seq::new(v.len(), |i: int| v[i]@)
}

fn object1_value(k: &str, v: JsonValue) -> (r: JsonValue)
    ensures
        r@ == object1(k@, v@),
{
    let mut r = JsonValue::new_object();
    r.set(to_owned(k), v);
    r
}

fn type_schema_value(t: &str) -> (r: JsonValue)
    ensures
        r@ == type_schema(t@),
{
    object1_value("type", JsonValue::String(to_owned(t)))
}

/// The JSON Schema type of an XSD scalar.
pub fn scalar_schema_type(xsd: &str) -> (r: &'static str)
    ensures
        r@ == scalar_type(xsd@),
{
    if str_eq(xsd, "xsd:integer") || str_eq(xsd, "xsd:int") || str_eq(xsd, "xsd:long") || str_eq(
        xsd,
        "xsd:short",
    ) {
        "integer"
    } else if str_eq(xsd, "xsd:decimal") || str_eq(xsd, "xsd:float") || str_eq(xsd, "xsd:double") {
        "number"
    } else if str_eq(xsd, "xsd:boolean") {
        "boolean"
    } else {
        "string"
    }
}

/// `{ "type": <the JSON Schema type of xsd> }`.
pub fn scalar_schema(xsd: &str) -> (r: JsonValue)
    ensures
        r@ == type_schema(scalar_type(xsd@)),
{
    type_schema_value(scalar_schema_type(xsd))
}

fn with_description(schema: JsonValue, description: &Option<String>) -> (r: JsonValue)
    ensures
        r@ == described(
            schema@,
            match description {
                Some(d) => Some(d@),
                None => None,
            },
        ),
{
    let mut schema = schema;
    match description {
        Some(d) => {
            schema.set(to_owned("description"), JsonValue::String(to_owned(d.as_str())));
        },
        None => {},
    }
    schema
}

impl Ontology {
    /// Build a property schema with its `rdfs:comment` attached as `description`.
    fn property_schema(property: &Property) -> (r: JsonValue)
        ensures
            r@ == property_schema(property@),
    {
        let schema = match &property.range {
            PropertyRange::Scalar(xsd) => scalar_schema(xsd.as_str()),
            PropertyRange::Reference(_) => object1_value(
                "$ref",
                JsonValue::String(to_owned("#/$defs/EntityRef")),
            ),
        };
        with_description(schema, &property.description)
    }

    fn node_schema(node: &Node) -> (r: JsonValue)
        ensures
            r@ == node_schema(node@),
    {
        let ghost pm = properties_model(node.properties@);
        let mut props = object1_value("id", type_schema_value("string"));
        assert(pm.take(0) =~= Seq::<PropertyModel>::empty());
        for i in 0..node.properties.len()
            invariant
                pm == properties_model(node.properties@),
                props@ == properties_schema(pm.take(i as int)),
        {
            assert(pm.take(i + 1).drop_last() =~= pm.take(i as int));
            let property = &node.properties[i];
            props.set(to_owned(property.name.as_str()), Self::property_schema(property));
        }
        assert(pm.take(node.properties.len() as int) =~= pm);
        let mut schema = object1_value("type", JsonValue::String(to_owned("object")));
        schema.set(to_owned("properties"), props);
        with_description(schema, &node.description)
    }

    /// Convert the ontology into a JSON Schema document. Each class becomes an
    /// entry under `$defs`; references to other classes are a `$ref` to a shared
    /// lightweight `EntityRef` (an `id` and a `type`).
    pub fn to_json(&self) -> (r: JsonValue)
        ensures
            r@ == ontology_schema(self@),
    {
        let ghost nm = nodes_model(self.nodes@);
        let mut defs = JsonValue::new_object();
        assert(nm.take(0) =~= Seq::<NodeModel>::empty());
        for i in 0..self.nodes.len()
            invariant
                nm == nodes_model(self.nodes@),
                defs@ == defs_schema(nm.take(i as int)),
        {
            assert(nm.take(i + 1).drop_last() =~= nm.take(i as int));
            let node = &self.nodes[i];
            defs.set(to_owned(node.name.as_str()), Self::node_schema(node));
        }
        assert(nm.take(self.nodes.len() as int) =~= nm);
        let mut entity_props = object1_value("id", type_schema_value("string"));
        entity_props.set(to_owned("type"), type_schema_value("string"));
        let mut entity_ref = object1_value("type", JsonValue::String(to_owned("object")));
        entity_ref.set(to_owned("properties"), entity_props);
        let mut required: Vec<JsonValue> = Vec::new();
        required.push(JsonValue::String(to_owned("id")));
        required.push(JsonValue::String(to_owned("type")));
        proof {
            crate::json::lemma_array_model(required);
        }
        assert(crate::json::values_model(required@) =~= seq![Json::Str("id"@), Json::Str("type"@)]);
        entity_ref.set(to_owned("required"), JsonValue::Array(required));
        defs.set(to_owned("EntityRef"), entity_ref);
        object1_value("$defs", defs)
    }

    /// Basic sanity check on the ontology: it has at least one node.
    pub fn validate(&self) -> (r: Result<(), OntologyError>)
        ensures
            match r {
                Ok(()) => self@.nodes.len() > 0,
                Err(e) => self@.nodes.len() == 0 && e@ == ErrorModel::EmptyOntology,
            },
    {
        if self.nodes.len() == 0 {
            return Err(OntologyError::EmptyOntology);
        }
        Ok(())
    }

    /// Look up a node by its (short) name: the first node so named.
    pub fn node(&self, name: &str) -> (r: Option<&Node>)
        ensures
            match r {
                Some(n) => node_named(self@.nodes, name@) == Some(n@),
                None => node_named(self@.nodes, name@) is None,
            },
    {
        let ghost nm = self@.nodes;
        let mut i: usize = 0;
        assert(nm.skip(0) =~= nm);
        while i < self.nodes.len()
            invariant
                i <= self.nodes.len(),
                nm == nodes_model(self.nodes@),
                node_named(nm, name@) == node_named(nm.skip(i as int), name@),
            decreases self.nodes.len() - i,
        {
            assert(nm.skip(i as int).drop_first() =~= nm.skip(i + 1));
            if str_eq(self.nodes[i].name.as_str(), name) {
                return Some(&self.nodes[i]);
            }
            i = i + 1;
        }
        assert(nm.skip(i as int).len() == 0);
        None
    }

    /// All node names, in order.
    pub fn node_names(&self) -> (r: Vec<&str>)
        ensures
            strs_model(r@) == Seq::new(self@.nodes.len(), |i: int| self@.nodes[i].name),
    {
        let mut r: Vec<&str> = Vec::new();
        for i in 0..self.nodes.len()
            invariant
                r.len() == i,
                forall|j: int| 0 <= j < i ==> #[trigger] r@[j]@ == self.nodes@[j].name@,
        {
            r.push(self.nodes[i].name.as_str());
        }
        assert(strs_model(r@) =~= Seq::new(self@.nodes.len(), |i: int| self@.nodes[i].name));
        r
    }

    /// All edge names, in order.
    pub fn edge_names(&self) -> (r: Vec<&str>)
        ensures
            strs_model(r@) == Seq::new(self@.edges.len(), |i: int| self@.edges[i].name),
    {
        let mut r: Vec<&str> = Vec::new();
        for i in 0..self.edges.len()
            invariant
                r.len() == i,
                forall|j: int| 0 <= j < i ==> #[trigger] r@[j]@ == self.edges@[j].name@,
        {
            r.push(self.edges[i].name.as_str());
        }
        assert(strs_model(r@) =~= Seq::new(self@.edges.len(), |i: int| self@.edges[i].name));
        r
    }
}

proof fn lemma_properties_schema_no_numbers(ps: Seq<PropertyModel>)
    ensures
        no_numbers(properties_schema(ps)),
    decreases ps.len(),
{
    let e = Json::Object(Seq::empty());
    lemma_set_member_no_numbers(e, "type"@, Json::Str("string"@));
    if ps.len() == 0 {
        lemma_set_member_no_numbers(e, "id"@, type_schema("string"@));
    } else {
        lemma_properties_schema_no_numbers(ps.drop_last());
        let p = ps.last();
        let base = match p.range {
            RangeModel::Scalar(x) => type_schema(scalar_type(x)),
            RangeModel::Reference(_) => object1("$ref"@, Json::Str("#/$defs/EntityRef"@)),
        };
        lemma_set_member_no_numbers(e, "type"@, Json::Str(scalar_type(match p.range { RangeModel::Scalar(x) => x, _ => Seq::empty() })));
        lemma_set_member_no_numbers(e, "$ref"@, Json::Str("#/$defs/EntityRef"@));
        if let Some(d) = p.description {
            lemma_set_member_no_numbers(base, "description"@, Json::Str(d));
        }
        lemma_set_member_no_numbers(properties_schema(ps.drop_last()), p.name, property_schema(p));
    }
}

proof fn lemma_defs_schema_no_numbers(nodes: Seq<NodeModel>)
    ensures
        no_numbers(defs_schema(nodes)),
    decreases nodes.len(),
{
    if nodes.len() > 0 {
        lemma_defs_schema_no_numbers(nodes.drop_last());
        let n = nodes.last();
        let e = Json::Object(Seq::empty());
        lemma_properties_schema_no_numbers(n.properties);
        lemma_set_member_no_numbers(e, "type"@, Json::Str("object"@));
        let o1 = object1("type"@, Json::Str("object"@));
        lemma_set_member_no_numbers(o1, "properties"@, properties_schema(n.properties));
        if let Some(d) = n.description {
            lemma_set_member_no_numbers(
                object2("type"@, Json::Str("object"@), "properties"@, properties_schema(n.properties)),
                "description"@,
                Json::Str(d),
            );
        }
        lemma_set_member_no_numbers(defs_schema(nodes.drop_last()), n.name, node_schema(n));
    }
}

/// The JSON Schema of an ontology holds no numbers.
proof fn lemma_ontology_schema_no_numbers(o: OntologyModel)
    ensures
        no_numbers(ontology_schema(o)),
{
    let e = Json::Object(Seq::empty());
    let ts = type_schema("string"@);
    lemma_set_member_no_numbers(e, "type"@, Json::Str("string"@));
    lemma_set_member_no_numbers(e, "id"@, ts);
    lemma_set_member_no_numbers(object1("id"@, ts), "type"@, ts);
    lemma_set_member_no_numbers(e, "type"@, Json::Str("object"@));
    let props = object2("id"@, ts, "type"@, ts);
    lemma_set_member_no_numbers(object1("type"@, Json::Str("object"@)), "properties"@, props);
    let req = Json::Array(seq![Json::Str("id"@), Json::Str("type"@)]);
    lemma_items_without_numbers(seq![Json::Str("id"@), Json::Str("type"@)]);
    lemma_set_member_no_numbers(object2("type"@, Json::Str("object"@), "properties"@, props), "required"@, req);
    lemma_defs_schema_no_numbers(o.nodes);
    let defs = set_member(defs_schema(o.nodes), "EntityRef"@, entity_ref_schema());
    lemma_set_member_no_numbers(defs_schema(o.nodes), "EntityRef"@, entity_ref_schema());
    lemma_set_member_no_numbers(e, "$defs"@, defs);
}

impl Ontology {
    /// The ontology's JSON Schema as pretty-printed JSON text, as
    /// `serde_json::to_string_pretty` writes it.
    pub fn to_json_pretty(&self) -> (r: Result<String, serde_json::Error>)
        ensures
            r is Ok,
            r matches Ok(t) ==> t@ == json_pretty_text(ontology_schema(self@)),
    {
        let schema = self.to_json();
        proof {
            lemma_ontology_schema_no_numbers(self@);
        }
        pretty_json_text(&schema)
    }
}

} // verus!
