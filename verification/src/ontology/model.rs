//! The ontology's data types and their mathematical models.

use vstd::prelude::*;

use crate::text::to_owned;

verus! {

/// Describes what a property points to.
#[derive(Debug, Clone, PartialEq)]
pub enum PropertyRange {
    /// A basic xsd scalar (e.g. `xsd:string`).
    Scalar(String),
    /// A reference to another class.
    Reference(String),
}

/// A single property (datatype or object) attached to a node.
#[derive(Debug, Clone, PartialEq)]
pub struct Property {
    pub name: String,
    pub description: Option<String>,
    pub range: PropertyRange,
}

/// A class in the ontology, holding its own scalar properties and references
/// to other classes.
#[derive(Debug, Clone, PartialEq)]
pub struct Node {
    pub id: String,
    pub name: String,
    pub description: Option<String>,
    pub properties: Vec<Property>,
}

/// A directed relationship between two nodes, derived from an object property.
/// An edge can carry its own scalar properties (e.g. `skillLevel` on `hasSkill`).
#[derive(Debug, Clone, PartialEq)]
pub struct Edge {
    pub name: String,
    pub from: String,
    pub to: String,
    pub description: Option<String>,
    pub properties: Vec<Property>,
}

/// The parsed ontology: a set of nodes and the edges between them.
#[derive(Debug, Clone, PartialEq)]
pub struct Ontology {
    pub nodes: Vec<Node>,
    pub edges: Vec<Edge>,
}

/// The errors that loading or parsing an ontology reports.
#[derive(Debug, Clone, PartialEq)]
pub enum OntologyError {
    /// The file at the path could not be read; the second field says why.
    Read(String, String),
    InvalidJsonLd(String),
    MissingGraph,
    EmptyOntology,
    MissingLabel(String),
    MissingPropertyLabel(String),
    UnknownReference { property: String, class: String, reference: String },
}

pub enum RangeModel {
    Scalar(Seq<char>),
    Reference(Seq<char>),
}

pub struct PropertyModel {
    pub name: Seq<char>,
    pub description: Option<Seq<char>>,
    pub range: RangeModel,
}

pub struct NodeModel {
    pub id: Seq<char>,
    pub name: Seq<char>,
    pub description: Option<Seq<char>>,
    pub properties: Seq<PropertyModel>,
}

pub struct EdgeModel {
    pub name: Seq<char>,
    pub from: Seq<char>,
    pub to: Seq<char>,
    pub description: Option<Seq<char>>,
    pub properties: Seq<PropertyModel>,
}

pub struct OntologyModel {
    pub nodes: Seq<NodeModel>,
    pub edges: Seq<EdgeModel>,
}

pub enum ErrorModel {
    Read(Seq<char>, Seq<char>),
    InvalidJsonLd(Seq<char>),
    MissingGraph,
    EmptyOntology,
    MissingLabel(Seq<char>),
    MissingPropertyLabel(Seq<char>),
    UnknownReference { property: Seq<char>, class: Seq<char>, reference: Seq<char> },
}

pub open spec fn opt_model(o: Option<String>) -> Option<Seq<char>> {
    match o {
        Some(s) => Some(s@),
        None => None,
    }
}

impl View for PropertyRange {
    type V = RangeModel;

    open spec fn view(&self) -> RangeModel {
        match self {
            PropertyRange::Scalar(s) => RangeModel::Scalar(s@),
            PropertyRange::Reference(s) => RangeModel::Reference(s@),
        }
    }
}

impl View for Property {
    type V = PropertyModel;

    open spec fn view(&self) -> PropertyModel {
        PropertyModel {
            name: self.name@,
            description: opt_model(self.description),
            range: self.range@,
        }
    }
}

pub open spec fn properties_model(v: Seq<Property>) -> Seq<PropertyModel> {
    Seq::new(v.len(), |i: int| v[i]@)
}

impl View for Node {
    type V = NodeModel;

    open spec fn view(&self) -> NodeModel {
        NodeModel {
            id: self.id@,
            name: self.name@,
            description: opt_model(self.description),
            properties: properties_model(self.properties@),
        }
    }
}

impl View for Edge {
    type V = EdgeModel;

    open spec fn view(&self) -> EdgeModel {
        EdgeModel {
            name: self.name@,
            from: self.from@,
            to: self.to@,
            description: opt_model(self.description),
            properties: properties_model(self.properties@),
        }
    }
}

pub open spec fn nodes_model(v: Seq<Node>) -> Seq<NodeModel> {
    Seq::new(v.len(), |i: int| v[i]@)
}

pub open spec fn edges_model(v: Seq<Edge>) -> Seq<EdgeModel> {
    Seq::new(v.len(), |i: int| v[i]@)
}

impl View for Ontology {
    type V = OntologyModel;

    open spec fn view(&self) -> OntologyModel {
        OntologyModel { nodes: nodes_model(self.nodes@), edges: edges_model(self.edges@) }
    }
}

impl Default for Ontology {
    /// An ontology with no nodes and no edges.
    fn default() -> (r: Self)
        ensures
            r@.nodes.len() == 0,
            r@.edges.len() == 0,
    {
        Ontology { nodes: Vec::new(), edges: Vec::new() }
    }
}

impl View for OntologyError {
    type V = ErrorModel;

    open spec fn view(&self) -> ErrorModel {
        match self {
            OntologyError::Read(p, e) => ErrorModel::Read(p@, e@),
            OntologyError::InvalidJsonLd(m) => ErrorModel::InvalidJsonLd(m@),
            OntologyError::MissingGraph => ErrorModel::MissingGraph,
            OntologyError::EmptyOntology => ErrorModel::EmptyOntology,
            OntologyError::MissingLabel(m) => ErrorModel::MissingLabel(m@),
            OntologyError::MissingPropertyLabel(m) => ErrorModel::MissingPropertyLabel(m@),
            OntologyError::UnknownReference { property, class, reference } =>
                ErrorModel::UnknownReference {
                    property: property@,
                    class: class@,
                    reference: reference@,
                },
        }
    }
}

/// A copy of an optional string.
pub fn copy_opt(o: &Option<String>) -> (r: Option<String>)
    ensures
        opt_model(r) == opt_model(*o),
{
    match o {
        Some(s) => Some(to_owned(s.as_str())),
        None => None,
    }
}

impl PropertyRange {
    pub fn copy(&self) -> (r: PropertyRange)
        ensures
            r@ == self@,
    {
        match self {
            PropertyRange::Scalar(s) => PropertyRange::Scalar(to_owned(s.as_str())),
            PropertyRange::Reference(s) => PropertyRange::Reference(to_owned(s.as_str())),
        }
    }
}

impl Property {
    pub fn copy(&self) -> (r: Property)
        ensures
            r@ == self@,
    {
        Property {
            name: to_owned(self.name.as_str()),
            description: copy_opt(&self.description),
            range: self.range.copy(),
        }
    }
}

/// A copy of a list of properties.
pub fn copy_properties(v: &Vec<Property>) -> (r: Vec<Property>)
    ensures
        properties_model(r@) == properties_model(v@),
{
    let mut r: Vec<Property> = Vec::new();
    for i in 0..v.len()
        invariant
            r.len() == i,
            properties_model(r@) == properties_model(v@).take(i as int),
    {
        let ghost before = r@;
        let p = v[i].copy();
        r.push(p);
        assert(r@[i as int] == p);
        assert(p@ == v@[i as int]@);
        assert forall|j: int| 0 <= j < i + 1 implies #[trigger] properties_model(r@)[j]
            == properties_model(v@).take(i + 1)[j] by {
            if j < i {
                assert(r@[j] == before[j]);
                assert(properties_model(before)[j] == properties_model(v@).take(i as int)[j]);
            }
        }
        assert(properties_model(r@) =~= properties_model(v@).take(i + 1));
    }
    assert(properties_model(v@).take(v.len() as int) =~= properties_model(v@));
    r
}

impl Node {
    pub fn copy(&self) -> (r: Node)
        ensures
            r@ == self@,
    {
        Node {
            id: to_owned(self.id.as_str()),
            name: to_owned(self.name.as_str()),
            description: copy_opt(&self.description),
            properties: copy_properties(&self.properties),
        }
    }
}

impl OntologyError {
    /// The text that describes the error.
    pub fn message(&self) -> (r: String)
        ensures
            r@ == error_message(self@),
    {
        let mut r = String::new();
        match self {
            OntologyError::Read(path, err) => {
                r.append("failed to read '");
                r.append(path.as_str());
                r.append("': ");
                r.append(err.as_str());
            },
            OntologyError::InvalidJsonLd(m) => {
                r.append("invalid JSON-LD: ");
                r.append(m.as_str());
            },
            OntologyError::MissingGraph => {
                r.append("no '@graph' array found in ontology");
            },
            OntologyError::EmptyOntology => {
                r.append("ontology contains no nodes");
            },
            OntologyError::MissingLabel(m) => {
                r.append("class '");
                r.append(m.as_str());
                r.append("' is missing a label");
            },
            OntologyError::MissingPropertyLabel(m) => {
                r.append("property '");
                r.append(m.as_str());
                r.append("' is missing a label");
            },
            OntologyError::UnknownReference { property, class, reference } => {
                r.append("property '");
                r.append(property.as_str());
                r.append("' on class '");
                r.append(class.as_str());
                r.append("' references unknown class '");
                r.append(reference.as_str());
                r.append("'");
            },
        }
        r
    }
}

/// The text that describes an error.
pub open spec fn error_message(e: ErrorModel) -> Seq<char> {
    match e {
        ErrorModel::Read(p, m) => "failed to read '"@ + p + "': "@ + m,
        ErrorModel::InvalidJsonLd(m) => "invalid JSON-LD: "@ + m,
        ErrorModel::MissingGraph => "no '@graph' array found in ontology"@,
        ErrorModel::EmptyOntology => "ontology contains no nodes"@,
        ErrorModel::MissingLabel(m) => "class '"@ + m + "' is missing a label"@,
        ErrorModel::MissingPropertyLabel(m) => "property '"@ + m + "' is missing a label"@,
        ErrorModel::UnknownReference { property, class, reference } => "property '"@ + property
            + "' on class '"@ + class + "' references unknown class '"@ + reference + "'"@,
    }
}

} // verus!
