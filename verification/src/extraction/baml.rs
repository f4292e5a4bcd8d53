//! The BAML schema derived from an ontology, and the replacement of the
//! identifiers that the model invents by UUIDs.

use vstd::prelude::*;

use crate::ontology::model::{nodes_model, properties_model, NodeModel, Node, Ontology, OntologyModel, Property, PropertyModel, PropertyRange, RangeModel};
use crate::assoc::StrMap;
use crate::json::{find_member, lemma_array_model, lemma_object_model, members_get, members_model, set_member, values_model, Json, JsonValue};
use crate::persistence::cypher::{record_id, records_of, refs_model};
use crate::extraction::laws::law_remapped_ids;
use crate::extraction::spare::{holds_text, unused_uuid};
use crate::text::{
    strings_model,
    ascii_lowercase, char_is_ascii_digit, chars_of, escape_with, is_ascii_digit,
    push_char, push_escaped, rules_model, str_eq, to_ascii_lowercase, to_owned,
};

verus! {

// ---------------------------------------------------------------------------
// Characters, by `char`'s own methods
// ---------------------------------------------------------------------------

/// What `char::to_lowercase` yields for a character.
pub uninterp spec fn char_lowercase(c: char) -> Seq<char>;

/// What `char::is_alphanumeric` says of a character.
pub uninterp spec fn char_alphanumeric(c: char) -> bool;

/// `char::to_lowercase`, collected: the Unicode lower-case mapping of `c`
/// (one or more characters; `c` itself when it has none). The contract
/// names the result and does not restate the Unicode tables.
#[verifier::external_body]
fn lowercase_of(c: char) -> (r: String)
    ensures
        r@ == char_lowercase(c),
{
    c.to_lowercase().collect()
}

/// `char::is_alphanumeric`: whether `c` is alphabetic or numeric in
/// Unicode's sense. The contract names the result and does not restate the
/// Unicode tables.
#[verifier::external_body]
fn is_alphanumeric(c: char) -> (r: bool)
    ensures
        r == char_alphanumeric(c),
{
    c.is_alphanumeric()
}

// ---------------------------------------------------------------------------
// The schema
// ---------------------------------------------------------------------------

/// `a` comes before `b` in the order of `String`'s `Ord` (by code point).
pub open spec fn name_lt(a: Seq<char>, b: Seq<char>) -> bool
    decreases a.len(),
{
    if a.len() == 0 {
        b.len() > 0
    } else if b.len() == 0 {
        false
    } else if a[0] != b[0] {
        a[0] < b[0]
    } else {
        name_lt(a.drop_first(), b.drop_first())
    }
}

/// `n` put into `s` after every node whose name does not come after its own.
pub open spec fn insert_by_name(s: Seq<NodeModel>, n: NodeModel) -> Seq<NodeModel>
    decreases s.len(),
{
    if s.len() == 0 {
        seq![n]
    } else if name_lt(n.name, s[0].name) {
        seq![n] + s
    } else {
        seq![s[0]] + insert_by_name(s.drop_first(), n)
    }
}

/// The nodes sorted by name; nodes with equal names keep their order.
pub open spec fn sort_by_name(s: Seq<NodeModel>) -> Seq<NodeModel>
    decreases s.len(),
{
    if s.len() == 0 {
        Seq::empty()
    } else {
        insert_by_name(sort_by_name(s.drop_last()), s.last())
    }
}

/// The BAML type of an XSD scalar (or of a BAML type name), compared in
/// ASCII lower case.
pub open spec fn baml_scalar(xsd: Seq<char>) -> Seq<char> {
    let l = ascii_lowercase(xsd);
    if l == "xsd:integer"@ || l == "xsd:int"@ || l == "xsd:long"@ || l == "xsd:short"@ || l
        == "int"@ || l == "integer"@ {
        "int"@
    } else if l == "xsd:decimal"@ || l == "xsd:float"@ || l == "xsd:double"@ || l == "float"@ || l
        == "double"@ || l == "number"@ {
        "float"@
    } else if l == "xsd:boolean"@ || l == "boolean"@ || l == "bool"@ {
        "bool"@
    } else if l == "string[]"@ {
        "string[]"@
    } else if l == "int[]"@ || l == "integer[]"@ {
        "int[]"@
    } else if l == "float[]"@ {
        "float[]"@
    } else if l == "bool[]"@ || l == "boolean[]"@ {
        "bool[]"@
    } else {
        "string"@
    }
}

/// The BAML type of a property: its scalar's, or `EntityRef` for a reference.
pub open spec fn baml_type(range: RangeModel) -> Seq<char> {
    match range {
        RangeModel::Scalar(x) => baml_scalar(x),
        RangeModel::Reference(_) => "EntityRef"@,
    }
}

pub open spec fn field_char(c: char) -> char {
    if char_alphanumeric(c) {
        c
    } else {
        '_'
    }
}

/// A lowered name as a BAML field: every character that is not alphanumeric
/// as `_`, and a `_` in front of a leading ASCII digit.
pub open spec fn field_text(lowered: Seq<char>) -> Seq<char> {
    let mapped = lowered.map_values(|c: char| field_char(c));
    if mapped.len() > 0 && is_ascii_digit(mapped[0]) {
        seq!['_'] + mapped
    } else {
        mapped
    }
}

/// A node name with its first character in lower case.
pub open spec fn lowered_name(name: Seq<char>) -> Seq<char> {
    if name.len() == 0 {
        Seq::empty()
    } else {
        char_lowercase(name[0]) + name.drop_first()
    }
}

/// A node name as a BAML field: the first character in lower case, every
/// character that is not alphanumeric as `_`, and a `_` in front of a
/// leading ASCII digit.
pub open spec fn field_name_of(name: Seq<char>) -> Seq<char> {
    field_text(lowered_name(name))
}

pub open spec fn hash_rules() -> Seq<(char, Seq<char>)> {
    seq![('#', "\\#"@)]
}

pub open spec fn hash_quote_rules() -> Seq<(char, Seq<char>)> {
    seq![('#', "\\#"@), ('"', "\\\""@)]
}

pub open spec fn newline_rules() -> Seq<(char, Seq<char>)> {
    seq![('\n', " "@)]
}

/// A `@description` line.
pub open spec fn description_line(text: Seq<char>) -> Seq<char> {
    "  @description(#\""@ + text + "\"#)\n"@
}

/// The description of a class's `id` field.
pub open spec fn id_description(n: NodeModel) -> Seq<char> {
    match n.description {
        Some(d) => "A unique identifier for this "@ + n.name + " entity. "@ + escape_with(
            d,
            hash_quote_rules(),
        ),
        None => "A unique identifier for this "@ + n.name + " entity."@,
    }
}

/// The field lines of one property.
pub open spec fn property_lines(p: PropertyModel) -> Seq<char> {
    "  "@ + p.name + " "@ + baml_type(p.range) + "\n"@ + match p.description {
        Some(d) => description_line(escape_with(d, hash_rules())),
        None => Seq::empty(),
    }
}

pub open spec fn properties_lines(ps: Seq<PropertyModel>) -> Seq<char>
    decreases ps.len(),
{
    if ps.len() == 0 {
        Seq::empty()
    } else {
        properties_lines(ps.drop_last()) + property_lines(ps.last())
    }
}

/// The class of one node.
pub open spec fn class_block(n: NodeModel) -> Seq<char> {
    "class "@ + n.name + " {\n"@ + "  id string\n"@ + description_line(id_description(n))
        + properties_lines(n.properties) + match n.description {
        Some(d) => "  // "@ + escape_with(d, newline_rules()) + "\n"@,
        None => Seq::empty(),
    } + "}\n\n"@
}

pub open spec fn class_blocks(ns: Seq<NodeModel>) -> Seq<char>
    decreases ns.len(),
{
    if ns.len() == 0 {
        Seq::empty()
    } else {
        class_blocks(ns.drop_last()) + class_block(ns.last())
    }
}

/// The field of `ExtractionResult` that holds one node type's entities.
pub open spec fn result_field(n: NodeModel) -> Seq<char> {
    "  "@ + field_name_of(n.name) + " "@ + n.name + "[]\n"@ + match n.description {
        Some(d) => description_line(escape_with(d, hash_rules())),
        None => Seq::empty(),
    }
}

pub open spec fn result_fields(ns: Seq<NodeModel>) -> Seq<char>
    decreases ns.len(),
{
    if ns.len() == 0 {
        Seq::empty()
    } else {
        result_fields(ns.drop_last()) + result_field(ns.last())
    }
}

/// The `EntityRef` class: the id and the type of a referenced entity.
pub open spec fn entity_ref_block() -> Seq<char> {
    "class EntityRef {\n"@ + "  id string\n"@
        + "  @description(#\"The id of the referenced entity\"#)\n"@ + "  type string\n"@
        + "  @description(#\"The type (class name) of the referenced entity, e.g. Company, Skill\"#)\n"@
        + "}\n\n"@
}

/// The BAML schema of an ontology: one class per node (in name order), the
/// `EntityRef` class, and `ExtractionResult` with one array per node type.
pub open spec fn baml_schema(o: OntologyModel) -> Seq<char> {
    let sorted = sort_by_name(o.nodes);
    class_blocks(sorted) + entity_ref_block() + "dynamic class ExtractionResult {\n"@
        + result_fields(sorted) + "}\n"@
}

/// `a` comes before `b` by code point.
pub fn str_lt(a: &str, b: &str) -> (r: bool)
    ensures
        r == name_lt(a@, b@),
{
    let x = chars_of(a);
    let y = chars_of(b);
    let mut i: usize = 0;
    assert(a@.skip(0) =~= a@);
    assert(b@.skip(0) =~= b@);
    while i < x.len() && i < y.len()
        invariant
            x@ == a@,
            y@ == b@,
            i <= x.len(),
            i <= y.len(),
            name_lt(a@, b@) == name_lt(a@.skip(i as int), b@.skip(i as int)),
        decreases x.len() - i,
    {
        assert(a@.skip(i as int)[0] == x@[i as int]);
        assert(b@.skip(i as int)[0] == y@[i as int]);
        if x[i] != y[i] {
            return x[i] < y[i];
        }
        assert(a@.skip(i as int).drop_first() =~= a@.skip(i + 1));
        assert(b@.skip(i as int).drop_first() =~= b@.skip(i + 1));
        i = i + 1;
    }
    i == x.len() && i < y.len()
}

pub proof fn lemma_insert_by_name(s: Seq<NodeModel>, n: NodeModel, k: int)
    requires
        0 <= k <= s.len(),
        forall|j: int| 0 <= j < k ==> !name_lt(n.name, #[trigger] s[j].name),
        k < s.len() ==> name_lt(n.name, s[k].name),
    ensures
        insert_by_name(s, n) == s.insert(k, n),
    decreases k,
{
    if s.len() == 0 {
        assert(s.insert(k, n) =~= seq![n]);
    } else if k == 0 {
        assert(s.insert(0, n) =~= seq![n] + s);
    } else {
        assert(!name_lt(n.name, s[0].name));
        assert forall|j: int| 0 <= j < k - 1 implies !name_lt(n.name, #[trigger] s.drop_first()[j].name) by {
            assert(s.drop_first()[j] == s[j + 1]);
        }
        if k < s.len() {
            assert(s.drop_first()[k - 1] == s[k]);
        }
        lemma_insert_by_name(s.drop_first(), n, k - 1);
        assert(seq![s[0]] + s.drop_first().insert(k - 1, n) =~= s.insert(k, n));
    }
}

/// The BAML schema of an ontology.
pub struct BamlExtractor<'a> {
    ontology: &'a Ontology,
}

pub open spec fn node_refs_model(v: Seq<&Node>) -> Seq<NodeModel> {
    Seq::new(v.len(), |i: int| v[i]@)
}

impl<'a> BamlExtractor<'a> {
    pub closed spec fn ontology(&self) -> OntologyModel {
        self.ontology@
    }

    pub fn new(ontology: &'a Ontology) -> (r: Self)
        ensures
            r.ontology() == ontology@,
    {
        BamlExtractor { ontology }
    }

    /// Map an XSD scalar type name to its BAML equivalent.
    pub fn map_scalar(xsd: &str) -> (r: String)
        ensures
            r@ == baml_scalar(xsd@),
    {
        let lower = to_ascii_lowercase(xsd);
        let l = lower.as_str();
        let t = if str_eq(l, "xsd:integer") || str_eq(l, "xsd:int") || str_eq(l, "xsd:long")
            || str_eq(l, "xsd:short") || str_eq(l, "int") || str_eq(l, "integer") {
            "int"
        } else if str_eq(l, "xsd:decimal") || str_eq(l, "xsd:float") || str_eq(l, "xsd:double")
            || str_eq(l, "float") || str_eq(l, "double") || str_eq(l, "number") {
            "float"
        } else if str_eq(l, "xsd:boolean") || str_eq(l, "boolean") || str_eq(l, "bool") {
            "bool"
        } else if str_eq(l, "string[]") {
            "string[]"
        } else if str_eq(l, "int[]") || str_eq(l, "integer[]") {
            "int[]"
        } else if str_eq(l, "float[]") {
            "float[]"
        } else if str_eq(l, "bool[]") || str_eq(l, "boolean[]") {
            "bool[]"
        } else {
            "string"
        };
        to_owned(t)
    }

    /// Map a property to a BAML type: scalars by [`Self::map_scalar`],
    /// references to `EntityRef`.
    pub fn map_property_type(&self, property: &Property) -> (r: String)
        ensures
            r@ == baml_type(property.range@),
    {
        match &property.range {
            PropertyRange::Scalar(xsd) => Self::map_scalar(xsd.as_str()),
            PropertyRange::Reference(_) => to_owned("EntityRef"),
        }
    }

    /// Convert a node name into a BAML field name.
    pub fn field_name(name: &str) -> (r: String)
        ensures
            r@ == field_name_of(name@),
    {
        let cs = chars_of(name);
        let mut lowered = String::new();
        if cs.len() > 0 {
            let first = lowercase_of(cs[0]);
            lowered.append(first.as_str());
            for i in 1..cs.len()
                invariant
                    cs@ == name@,
                    cs.len() > 0,
                    lowered@ == char_lowercase(name@[0]) + name@.subrange(1, i as int),
            {
                push_char(&mut lowered, cs[i]);
                assert(lowered@ =~= char_lowercase(name@[0]) + name@.subrange(1, i + 1));
            }
            assert(name@.subrange(1, cs.len() as int) =~= name@.drop_first());
        } else {
            assert(lowered@ =~= Seq::<char>::empty());
        }
        Self::field_from_lowered(lowered.as_str())
    }

    /// A name whose first character is already in lower case, as a BAML
    /// field name.
    pub fn field_from_lowered(lowered: &str) -> (r: String)
        ensures
            r@ == field_text(lowered@),
    {
        let ls = chars_of(lowered);
        let ghost mapped = lowered@.map_values(|c: char| field_char(c));
        let mut out = String::new();
        for i in 0..ls.len()
            invariant
                ls@ == lowered@,
                mapped == lowered@.map_values(|c: char| field_char(c)),
                out@ == mapped.take(i as int),
        {
            if is_alphanumeric(ls[i]) {
                push_char(&mut out, ls[i]);
            } else {
                push_char(&mut out, '_');
            }
            assert(out@ =~= mapped.take(i + 1));
        }
        assert(mapped.take(ls.len() as int) =~= mapped);
        let os = chars_of(out.as_str());
        if os.len() > 0 && char_is_ascii_digit(os[0]) {
            let mut r = String::new();
            push_char(&mut r, '_');
            r.append(out.as_str());
            assert(r@ =~= seq!['_'] + mapped);
            r
        } else {
            out
        }
    }

    fn sorted_nodes(&self) -> (r: Vec<&'a Node>)
        ensures
            node_refs_model(r@) == sort_by_name(self.ontology().nodes),
    {
        let nodes = &self.ontology.nodes;
        let ghost nm = nodes_model(nodes@);
        let mut sorted: Vec<&'a Node> = Vec::new();
        assert(node_refs_model(sorted@) =~= Seq::<NodeModel>::empty());
        assert(nm.take(0) =~= Seq::<NodeModel>::empty());
        for i in 0..nodes.len()
            invariant
                nodes == &self.ontology.nodes,
                nm == nodes_model(nodes@),
                node_refs_model(sorted@) == sort_by_name(nm.take(i as int)),
        {
            assert(nm.take(i + 1).drop_last() =~= nm.take(i as int));
            let node = &nodes[i];
            let ghost sm = node_refs_model(sorted@);
            let mut k: usize = 0;
            while k < sorted.len()
                invariant
                    k <= sorted.len(),
                    sm == node_refs_model(sorted@),
                    forall|j: int| 0 <= j < k ==> !name_lt(node@.name, #[trigger] sm[j].name),
                ensures
                    k <= sorted.len(),
                    forall|j: int| 0 <= j < k ==> !name_lt(node@.name, #[trigger] sm[j].name),
                    k < sorted.len() ==> name_lt(node@.name, sm[k as int].name),
                decreases sorted.len() - k,
            {
                if str_lt(node.name.as_str(), sorted[k].name.as_str()) {
                    break;
                }
                k = k + 1;
            }
            proof {
                lemma_insert_by_name(sm, node@, k as int);
            }
            let ghost before = sorted@;
            sorted.insert(k, node);
            assert(node_refs_model(sorted@) =~= sm.insert(k as int, node@));
        }
        assert(nm.take(nodes.len() as int) =~= nm);
        sorted
    }
}

impl<'a> BamlExtractor<'a> {
    fn push_description_line(out: &mut String, text: &str, rules: &[(char, &str)])
        ensures
            final(out)@ == old(out)@ + description_line(escape_with(text@, rules_model(rules@))),
    {
        let ghost start = out@;
        out.append("  @description(#\"");
        push_escaped(out, text, rules);
        out.append("\"#)\n");
        assert(out@ =~= start + description_line(escape_with(text@, rules_model(rules@))));
    }

    fn push_id_description(out: &mut String, node: &Node)
        ensures
            final(out)@ == old(out)@ + description_line(id_description(node@)),
    {
        let ghost mid = out@;
        let hash_quote: [(char, &str); 2] = [('#', "\\#"), ('"', "\\\"")];
        assert(rules_model(hash_quote@) =~= hash_quote_rules());
        out.append("  @description(#\"");
        out.append("A unique identifier for this ");
        out.append(node.name.as_str());
        match &node.description {
            Some(desc) => {
                out.append(" entity. ");
                push_escaped(out, desc.as_str(), &hash_quote);
            },
            None => {
                out.append(" entity.");
            },
        }
        out.append("\"#)\n");
        assert(out@ =~= mid + description_line(id_description(node@)));
    }

    fn push_class_block(&self, out: &mut String, node: &Node)
        ensures
            final(out)@ == old(out)@ + class_block(node@),
    {
        let ghost start = out@;
        let hash: [(char, &str); 1] = [('#', "\\#")];
        let newline: [(char, &str); 1] = [('\n', " ")];
        assert(rules_model(hash@) =~= hash_rules());
        assert(rules_model(newline@) =~= newline_rules());
        out.append("class ");
        out.append(node.name.as_str());
        out.append(" {\n");
        out.append("  id string\n");
        Self::push_id_description(out, node);
        let ghost pm = properties_model(node.properties@);
        let ghost base = out@;
        assert(pm.take(0) =~= Seq::<PropertyModel>::empty());
        for i in 0..node.properties.len()
            invariant
                pm == properties_model(node.properties@),
                rules_model(hash@) == hash_rules(),
                out@ == base + properties_lines(pm.take(i as int)),
        {
            assert(pm.take(i + 1).drop_last() =~= pm.take(i as int));
            let ghost before = out@;
            let property = &node.properties[i];
            let ty = self.map_property_type(property);
            out.append("  ");
            out.append(property.name.as_str());
            out.append(" ");
            out.append(ty.as_str());
            out.append("\n");
            match &property.description {
                Some(d) => {
                    Self::push_description_line(out, d.as_str(), &hash);
                },
                None => {},
            }
            assert(out@ =~= before + property_lines(pm[i as int]));
        }
        assert(pm.take(node.properties.len() as int) =~= pm);
        let ghost after_props = out@;
        match &node.description {
            Some(desc) => {
                out.append("  // ");
                push_escaped(out, desc.as_str(), &newline);
                out.append("\n");
            },
            None => {},
        }
        out.append("}\n\n");
        assert(out@ =~= start + class_block(node@));
    }

    fn push_result_field(out: &mut String, node: &Node)
        ensures
            final(out)@ == old(out)@ + result_field(node@),
    {
        let ghost start = out@;
        let hash: [(char, &str); 1] = [('#', "\\#")];
        assert(rules_model(hash@) =~= hash_rules());
        let field = Self::field_name(node.name.as_str());
        out.append("  ");
        out.append(field.as_str());
        out.append(" ");
        out.append(node.name.as_str());
        out.append("[]\n");
        match &node.description {
            Some(d) => {
                Self::push_description_line(out, d.as_str(), &hash);
            },
            None => {},
        }
        assert(out@ =~= start + result_field(node@));
    }

    /// Generate the BAML class definitions for every node in the ontology
    /// (in name order), the `EntityRef` class, and a `dynamic class
    /// ExtractionResult` that aggregates one array of entities per node type.
    pub fn generate_schema(&self) -> (r: String)
        ensures
            r@ == baml_schema(self.ontology()),
    {
        let sorted = self.sorted_nodes();
        let ghost sm = node_refs_model(sorted@);
        let mut out = String::new();
        assert(sm.take(0) =~= Seq::<NodeModel>::empty());
        for i in 0..sorted.len()
            invariant
                sm == node_refs_model(sorted@),
                out@ == class_blocks(sm.take(i as int)),
        {
            assert(sm.take(i + 1).drop_last() =~= sm.take(i as int));
            self.push_class_block(&mut out, sorted[i]);
        }
        assert(sm.take(sorted.len() as int) =~= sm);
        let ghost classes = out@;
        out.append("class EntityRef {\n");
        out.append("  id string\n");
        out.append("  @description(#\"The id of the referenced entity\"#)\n");
        out.append("  type string\n");
        out.append(
            "  @description(#\"The type (class name) of the referenced entity, e.g. Company, Skill\"#)\n",
        );
        out.append("}\n\n");
        out.append("dynamic class ExtractionResult {\n");
        let ghost base = out@;
        assert(base =~= classes + entity_ref_block() + "dynamic class ExtractionResult {\n"@);
        for i in 0..sorted.len()
            invariant
                sm == node_refs_model(sorted@),
                out@ == base + result_fields(sm.take(i as int)),
        {
            assert(sm.take(i + 1).drop_last() =~= sm.take(i as int));
            Self::push_result_field(&mut out, sorted[i]);
        }
        out.append("}\n");
        assert(out@ =~= base + result_fields(sm) + "}\n"@);
        out
    }
}

// ---------------------------------------------------------------------------
// Identifiers
// ---------------------------------------------------------------------------

pub open spec fn is_lower_hex(c: char) -> bool {
    ('0' <= c && c <= '9') || ('a' <= c && c <= 'f')
}

/// The hyphenated, lower-case text of a version 4 UUID.
pub open spec fn is_uuid_v4_text(s: Seq<char>) -> bool {
    &&& s.len() == 36
    &&& forall|i: int|
        0 <= i < 36 ==> if i == 8 || i == 13 || i == 18 || i == 23 {
            #[trigger] s[i] == '-'
        } else {
            is_lower_hex(s[i])
        }
    &&& s[14] == '4'
    &&& (s[19] == '8' || s[19] == '9' || s[19] == 'a' || s[19] == 'b')
}

/// `uuid::Uuid::new_v4`, as text (`Display`): a fresh random version 4
/// UUID in its hyphenated lower-case form. Which UUID comes is chance:
/// nothing is said of it but its form, so two calls are not promised to
/// differ. It panics when the system's random source fails, which no
/// argument can rule out.
#[verifier::external_body]
fn new_uuid() -> (r: String)
    ensures
        is_uuid_v4_text(r@),
{
    uuid::Uuid::new_v4().to_string()
}

/// An object's `id`, replaced through `m` when `m` has it.
pub open spec fn remap_ref_id(v: Json, m: Map<Seq<char>, Seq<char>>) -> Json {
    match v.get_str("id"@) {
        Some(id) => if m.contains_key(id) {
            set_member(v, "id"@, Json::Str(m[id]))
        } else {
            v
        },
        None => v,
    }
}

/// A value with the `id` of every reference object (an object with a
/// `type`) inside it replaced through `m`; a reference's own members are
/// not searched further.
pub open spec fn remap_refs(v: Json, m: Map<Seq<char>, Seq<char>>) -> Json
    decreases v, 1int,
{
    match v {
        Json::Object(ms) => if members_get(ms, "type"@) is Some {
            remap_ref_id(v, m)
        } else {
            Json::Object(remap_members(ms, m))
        },
        Json::Array(items) => Json::Array(remap_items(items, m)),
        _ => v,
    }
}

pub open spec fn remap_items(items: Seq<Json>, m: Map<Seq<char>, Seq<char>>) -> Seq<Json>
    decreases items, 0int,
{
    if items.len() == 0 {
        Seq::empty()
    } else {
        remap_items(items.drop_last(), m).push(remap_refs(items.last(), m))
    }
}

pub open spec fn remap_members(ms: Seq<(Seq<char>, Json)>, m: Map<Seq<char>, Seq<char>>) -> Seq<
    (Seq<char>, Json),
>
    decreases ms, 0int,
{
    if ms.len() == 0 {
        Seq::empty()
    } else {
        remap_members(ms.drop_last(), m).push((ms.last().0, remap_refs(ms.last().1, m)))
    }
}

/// An entity record with its own `id` replaced through `m`, and the
/// references in each of its members.
pub open spec fn remap_record(r: Json, m: Map<Seq<char>, Seq<char>>) -> Json {
    match remap_ref_id(r, m) {
        Json::Object(ms) => Json::Object(remap_members(ms, m)),
        other => other,
    }
}

/// The records under one payload label, remapped.
pub open spec fn remap_entity_value(v: Json, m: Map<Seq<char>, Seq<char>>) -> Json {
    match v {
        Json::Array(items) => Json::Array(Seq::new(items.len(), |i: int| remap_record(items[i], m))),
        Json::Object(_) => remap_record(v, m),
        _ => v,
    }
}

/// A payload with every entity id and every reference replaced through `m`.
pub open spec fn remap_payload(p: Json, m: Map<Seq<char>, Seq<char>>) -> Json {
    match p {
        Json::Object(ms) => Json::Object(
            Seq::new(ms.len(), |i: int| (ms[i].0, remap_entity_value(ms[i].1, m))),
        ),
        _ => p,
    }
}

/// The ids of the records under the given labels, in order.
pub open spec fn records_ids(recs: Seq<Json>) -> Seq<Seq<char>>
    decreases recs.len(),
{
    if recs.len() == 0 {
        Seq::empty()
    } else {
        let before = records_ids(recs.drop_last());
        match record_id(recs.last()) {
            Some(id) => before.push(id),
            None => before,
        }
    }
}

pub open spec fn entities_ids(ms: Seq<(Seq<char>, Json)>) -> Seq<Seq<char>>
    decreases ms.len(),
{
    if ms.len() == 0 {
        Seq::empty()
    } else {
        entities_ids(ms.drop_last()) + records_ids(records_of(ms.last().1))
    }
}

/// The ids of all entity records in a payload.
pub open spec fn payload_ids(p: Json) -> Seq<Seq<char>> {
    match p {
        Json::Object(ms) => entities_ids(ms),
        _ => Seq::empty(),
    }
}

/// `v` with its `id` replaced through `m`.
fn remapped_id(v: &JsonValue, m: &StrMap) -> (r: JsonValue)
    ensures
        r@ == remap_ref_id(v@, m@),
{
    let mut r = v.deep_copy();
    match v.get_str("id") {
        Some(id) => match m.get(id) {
            Some(new_id) => {
                r.set(to_owned("id"), JsonValue::String(to_owned(new_id.as_str())));
            },
            None => {},
        },
        None => {},
    }
    r
}

fn remapped_refs(v: &JsonValue, m: &StrMap) -> (r: JsonValue)
    ensures
        r@ == remap_refs(v@, m@),
    decreases v@,
{
    match v {
        JsonValue::Object(ms) => {
            proof {
                lemma_object_model(*ms);
            }
            let ghost mm = members_model(ms@);
            if find_member(ms, "type").is_some() {
                return remapped_id(v, m);
            }
            let mut out: Vec<(String, JsonValue)> = Vec::new();
            assert(members_model(out@) =~= Seq::<(Seq<char>, Json)>::empty());
            for i in 0..ms.len()
                invariant
                    mm == members_model(ms@),
                    v@ == Json::Object(mm),
                    members_model(out@) == remap_members(mm.take(i as int), m@),
            {
                assert(mm.take(i + 1).drop_last() =~= mm.take(i as int));
                proof {
                    assert(decreases_to!(v@ => v@->Object_0));
                    assert(decreases_to!(mm => mm[i as int]));
                    assert(decreases_to!(mm[i as int] => mm[i as int].1));
                }
                let ghost before = out@;
                let x = remapped_refs(&ms[i].1, m);
                out.push((to_owned(ms[i].0.as_str()), x));
                assert(members_model(out@) =~= members_model(before).push((mm[i as int].0, x@)));
            }
            assert(mm.take(ms.len() as int) =~= mm);
            proof {
                lemma_object_model(out);
            }
            JsonValue::Object(out)
        },
        JsonValue::Array(items) => {
            proof {
                lemma_array_model(*items);
            }
            let ghost va = values_model(items@);
            let mut out: Vec<JsonValue> = Vec::new();
            assert(values_model(out@) =~= Seq::<Json>::empty());
            for i in 0..items.len()
                invariant
                    va == values_model(items@),
                    v@ == Json::Array(va),
                    values_model(out@) == remap_items(va.take(i as int), m@),
            {
                assert(va.take(i + 1).drop_last() =~= va.take(i as int));
                proof {
                    assert(decreases_to!(v@ => v@->Array_0));
                    assert(decreases_to!(va => va[i as int]));
                }
                let ghost before = out@;
                let x = remapped_refs(&items[i], m);
                out.push(x);
                assert(values_model(out@) =~= values_model(before).push(x@));
            }
            assert(va.take(items.len() as int) =~= va);
            proof {
                lemma_array_model(out);
            }
            JsonValue::Array(out)
        },
        _ => v.deep_copy(),
    }
}

fn remapped_record(r: &JsonValue, m: &StrMap) -> (out: JsonValue)
    ensures
        out@ == remap_record(r@, m@),
{
    let with_id = remapped_id(r, m);
    match &with_id {
        JsonValue::Object(ms) => {
            proof {
                lemma_object_model(*ms);
            }
            let ghost mm = members_model(ms@);
            let mut out: Vec<(String, JsonValue)> = Vec::new();
            assert(members_model(out@) =~= Seq::<(Seq<char>, Json)>::empty());
            for i in 0..ms.len()
                invariant
                    mm == members_model(ms@),
                    members_model(out@) == remap_members(mm.take(i as int), m@),
            {
                assert(mm.take(i + 1).drop_last() =~= mm.take(i as int));
                let ghost before = out@;
                let x = remapped_refs(&ms[i].1, m);
                out.push((to_owned(ms[i].0.as_str()), x));
                assert(members_model(out@) =~= members_model(before).push((mm[i as int].0, x@)));
            }
            assert(mm.take(ms.len() as int) =~= mm);
            proof {
                lemma_object_model(out);
            }
            JsonValue::Object(out)
        },
        _ => with_id,
    }
}

fn remapped_entity_value(v: &JsonValue, m: &StrMap) -> (r: JsonValue)
    ensures
        r@ == remap_entity_value(v@, m@),
{
    match v {
        JsonValue::Array(items) => {
            proof {
                lemma_array_model(*items);
            }
            let ghost va = values_model(items@);
            let mut out: Vec<JsonValue> = Vec::new();
            for i in 0..items.len()
                invariant
                    va == values_model(items@),
                    out.len() == i,
                    forall|j: int| 0 <= j < i ==> #[trigger] out@[j]@ == remap_record(va[j], m@),
            {
                out.push(remapped_record(&items[i], m));
            }
            proof {
                lemma_array_model(out);
            }
            assert(values_model(out@) =~= Seq::new(va.len(), |i: int| remap_record(va[i], m@)));
            JsonValue::Array(out)
        },
        JsonValue::Object(_) => remapped_record(v, m),
        _ => v.deep_copy(),
    }
}

fn remapped_entities(entities: &Vec<(String, JsonValue)>, m: &StrMap) -> (r: Vec<(String, JsonValue)>)
    ensures
        members_model(r@) == Seq::new(
            members_model(entities@).len(),
            |i: int| (members_model(entities@)[i].0, remap_entity_value(members_model(entities@)[i].1, m@)),
        ),
{
    let ghost mm = members_model(entities@);
    let mut out: Vec<(String, JsonValue)> = Vec::new();
    for i in 0..entities.len()
        invariant
            mm == members_model(entities@),
            members_model(out@) =~= Seq::new(
                i as nat,
                |j: int| (mm[j].0, remap_entity_value(mm[j].1, m@)),
            ),
    {
        let ghost before = out@;
        let x = remapped_entity_value(&entities[i].1, m);
        out.push((to_owned(entities[i].0.as_str()), x));
        assert(members_model(out@) =~= members_model(before).push((mm[i as int].0, x@)));
    }
    out
}

/// The distinct ids, in order of first occurrence.
pub open spec fn distinct_ids(ids: Seq<Seq<char>>) -> Seq<Seq<char>>
    decreases ids.len(),
{
    if ids.len() == 0 {
        Seq::empty()
    } else {
        let d = distinct_ids(ids.drop_last());
        if d.contains(ids.last()) {
            d
        } else {
            d.push(ids.last())
        }
    }
}

/// The map that sends the `k`-th id of `d` to `draws[k]`.
pub open spec fn draw_map(d: Seq<Seq<char>>, draws: Seq<Seq<char>>) -> Map<Seq<char>, Seq<char>>
    decreases d.len(),
{
    if d.len() == 0 {
        Map::empty()
    } else {
        draw_map(d.drop_last(), draws).insert(d.last(), draws[d.len() - 1])
    }
}

/// The distinct ids hold each id once, and exactly the ids there are.
pub proof fn lemma_distinct_ids(ids: Seq<Seq<char>>)
    ensures
        distinct_ids(ids).no_duplicates(),
        forall|k: Seq<char>| #[trigger] distinct_ids(ids).contains(k) <==> ids.contains(k),
        distinct_ids(ids).len() <= ids.len(),
    decreases ids.len(),
{
    if ids.len() > 0 {
        let front = ids.drop_last();
        lemma_distinct_ids(front);
        let d = distinct_ids(front);
        assert forall|k: Seq<char>| #[trigger] distinct_ids(ids).contains(k) <==> ids.contains(k) by {
            if ids.contains(k) && k != ids.last() {
                let i = choose|i: int| 0 <= i < ids.len() && ids[i] == k;
                assert(front[i] == k);
                assert(front.contains(k));
            }
            if front.contains(k) {
                let i = choose|i: int| 0 <= i < front.len() && front[i] == k;
                assert(ids[i] == k);
            }
            if k == ids.last() {
                assert(ids[ids.len() - 1] == k);
            }
            if !d.contains(ids.last()) && d.push(ids.last()).contains(k) && k != ids.last() {
                let i = choose|i: int| 0 <= i < d.len() + 1 && d.push(ids.last())[i] == k;
                assert(d[i] == k);
            }
            if d.contains(k) && !d.contains(ids.last()) {
                let i = choose|i: int| 0 <= i < d.len() && d[i] == k;
                assert(d.push(ids.last())[i] == k);
            }
            if !d.contains(ids.last()) && k == ids.last() {
                assert(d.push(ids.last())[d.len() as int] == k);
            }
        }
    }
}

/// The map of `d` onto the draws: defined on exactly the ids of `d`, and
/// sending `d[k]` to `draws[k]` when `d` holds each id once.
pub proof fn lemma_draw_map(d: Seq<Seq<char>>, draws: Seq<Seq<char>>)
    requires
        d.no_duplicates(),
        d.len() <= draws.len(),
    ensures
        forall|k: Seq<char>| #[trigger] draw_map(d, draws).contains_key(k) <==> d.contains(k),
        forall|i: int| 0 <= i < d.len() ==> draw_map(d, draws)[#[trigger] d[i]] == draws[i],
    decreases d.len(),
{
    if d.len() > 0 {
        let front = d.drop_last();
        assert(front.no_duplicates()) by {
            assert forall|i: int, j: int| 0 <= i < j < front.len() implies front[i] != front[j] by {
                assert(front[i] == d[i] && front[j] == d[j]);
            }
        }
        lemma_draw_map(front, draws);
        assert(draw_map(d, draws) == draw_map(front, draws).insert(d.last(), draws[d.len() - 1]));
        assert forall|k: Seq<char>| #[trigger] draw_map(d, draws).contains_key(k) <==> d.contains(k) by {
            if front.contains(k) {
                let i = choose|i: int| 0 <= i < front.len() && front[i] == k;
                assert(d[i] == k);
            }
            if d.contains(k) && k != d.last() {
                let i = choose|i: int| 0 <= i < d.len() && d[i] == k;
                assert(i != d.len() - 1);
                assert(front[i] == k);
            }
            if k == d.last() {
                assert(d[d.len() - 1] == k);
            }
        }
        assert forall|i: int| 0 <= i < d.len() implies draw_map(d, draws)[#[trigger] d[i]] == draws[i] by {
            if i < d.len() - 1 {
                assert(front[i] == d[i]);
                assert(d[i] != d[d.len() - 1]);
            }
        }
    }
}

/// Distinct draws give distinct new ids: the map of the distinct ids onto
/// pairwise different draws is one-to-one.
pub proof fn law_draw_map_one_to_one(ids: Seq<Seq<char>>, draws: Seq<Seq<char>>)
    requires
        draws.len() >= distinct_ids(ids).len(),
        draws.no_duplicates(),
    ensures
        forall|a: Seq<char>, b: Seq<char>|
            #[trigger] draw_map(distinct_ids(ids), draws).contains_key(a) && #[trigger] draw_map(
                distinct_ids(ids),
                draws,
            ).contains_key(b) && a != b ==> draw_map(distinct_ids(ids), draws)[a] != draw_map(
                distinct_ids(ids),
                draws,
            )[b],
        forall|k: int|
            0 <= k < distinct_ids(ids).len() ==> draw_map(distinct_ids(ids), draws)[#[trigger] distinct_ids(
                ids,
            )[k]] == draws[k],
{
    let d = distinct_ids(ids);
    lemma_distinct_ids(ids);
    lemma_draw_map(d, draws);
    assert forall|a: Seq<char>, b: Seq<char>|
        #[trigger] draw_map(d, draws).contains_key(a) && #[trigger] draw_map(d, draws).contains_key(b) && a
            != b implies draw_map(d, draws)[a] != draw_map(d, draws)[b] by {
        let i = choose|i: int| 0 <= i < d.len() && d[i] == a;
        let j = choose|j: int| 0 <= j < d.len() && d[j] == b;
        assert(draw_map(d, draws)[d[i]] == draws[i]);
        assert(draw_map(d, draws)[d[j]] == draws[j]);
        assert(i != j);
    }
}

/// The distinct entity ids of a payload, in order of first occurrence.
pub fn distinct_entity_ids(payload: &JsonValue) -> (r: Vec<String>)
    ensures
        strings_model(r@) == distinct_ids(payload_ids(payload@)),
{
    let mut out: Vec<String> = Vec::new();
    let mut seen = StrMap::new();
    assert(strings_model(out@) =~= distinct_ids(Seq::<Seq<char>>::empty()));
    match payload {
        JsonValue::Object(entities) => {
            proof {
                lemma_object_model(*entities);
            }
            let ghost mm = members_model(entities@);
            assert(mm.take(0) =~= Seq::<(Seq<char>, Json)>::empty());
            for i in 0..entities.len()
                invariant
                    mm == members_model(entities@),
                    strings_model(out@) == distinct_ids(entities_ids(mm.take(i as int))),
                    forall|k: Seq<char>| #[trigger] seen@.contains_key(k) <==> strings_model(out@).contains(k),
            {
                assert(mm.take(i + 1).drop_last() =~= mm.take(i as int));
                let recs = crate::persistence::cypher::CypherAdapter::records(&entities[i].1);
                let ghost rm = refs_model(recs@);
                let ghost done = entities_ids(mm.take(i as int));
                assert(rm.take(0) =~= Seq::<Json>::empty());
                assert(done + records_ids(rm.take(0)) =~= done);
                for j in 0..recs.len()
                    invariant
                        rm == refs_model(recs@),
                        strings_model(out@) == distinct_ids(done + records_ids(rm.take(j as int))),
                        forall|k: Seq<char>| #[trigger] seen@.contains_key(k) <==> strings_model(out@).contains(k),
                {
                    assert(rm.take(j + 1).drop_last() =~= rm.take(j as int));
                    let ghost prev = done + records_ids(rm.take(j as int));
                    match recs[j].get_str("id") {
                        Some(id) => {
                            assert(done + records_ids(rm.take(j + 1)) =~= prev.push(id@));
                            assert(prev.push(id@).drop_last() =~= prev);
                            if !seen.contains_key(id) {
                                let ghost before = strings_model(out@);
                                out.push(to_owned(id));
                                seen.insert(to_owned(id), to_owned(""));
                                assert(strings_model(out@) =~= before.push(id@));
                                assert forall|k: Seq<char>| #[trigger] seen@.contains_key(k) <==> strings_model(out@).contains(k) by {
                                    if k == id@ {
                                        assert(strings_model(out@)[before.len() as int] == k);
                                    } else if before.contains(k) {
                                        let w = choose|w: int| 0 <= w < before.len() && before[w] == k;
                                        assert(strings_model(out@)[w] == k);
                                    } else if strings_model(out@).contains(k) {
                                        let w = choose|w: int| 0 <= w < before.len() + 1 && strings_model(out@)[w] == k;
                                        assert(before[w] == k);
                                    }
                                }
                            }
                        },
                        None => {
                            assert(done + records_ids(rm.take(j + 1)) =~= prev);
                        },
                    }
                }
                assert(rm.take(recs.len() as int) =~= rm);
                assert(entities_ids(mm.take(i + 1)) =~= done + records_ids(rm));
            }
            assert(mm.take(entities.len() as int) =~= mm);
        },
        _ => {},
    }
    out
}

impl<'a> BamlExtractor<'a> {
    /// Rewrite the `id` of every reference object (`{ "id": .., "type": .. }`)
    /// inside `value` through `id_map`. Other values are left untouched.
    pub fn remap_ref_ids(value: &mut JsonValue, id_map: &StrMap)
        ensures
            final(value)@ == remap_refs(old(value)@, id_map@),
    {
        *value = remapped_refs(value, id_map);
    }

    /// Replace every entity's id through `id_map`, and rewrite every
    /// reference so that it keeps pointing at the same target.
    pub fn apply_id_map(payload: &mut JsonValue, id_map: &StrMap)
        ensures
            final(payload)@ == remap_payload(old(payload)@, id_map@),
    {
        if let JsonValue::Object(entities) = &*payload {
            proof {
                lemma_object_model(*entities);
            }
            let out = remapped_entities(entities, id_map);
            proof {
                lemma_object_model(out);
            }
            *payload = JsonValue::Object(out);
        }
    }

    /// Replace the `k`-th distinct entity id of the payload (in order of
    /// first occurrence) by `draws[k]`, in every entity and every reference
    /// to it. Distinct draws give distinct new ids.
    pub fn assign_drawn(payload: &mut JsonValue, draws: &Vec<String>)
        requires
            draws.len() >= distinct_ids(payload_ids(old(payload)@)).len(),
        ensures
            final(payload)@ == remap_payload(
                old(payload)@,
                draw_map(distinct_ids(payload_ids(old(payload)@)), strings_model(draws@)),
            ),
    {
        let d = distinct_entity_ids(payload);
        let ghost dm = strings_model(d@);
        let ghost wm = strings_model(draws@);
        let mut id_map = StrMap::new();
        assert(dm.take(0) =~= Seq::<Seq<char>>::empty());
        for i in 0..d.len()
            invariant
                dm == strings_model(d@),
                wm == strings_model(draws@),
                d.len() <= draws.len(),
                id_map@ == draw_map(dm.take(i as int), wm),
        {
            assert(dm.take(i + 1).drop_last() =~= dm.take(i as int));
            id_map.insert(to_owned(d[i].as_str()), to_owned(draws[i].as_str()));
        }
        assert(dm.take(d.len() as int) =~= dm);
        Self::apply_id_map(payload, &id_map);
    }

    /// Replace every entity's model-made id with a fresh UUID, and rewrite
    /// every reference so that it keeps pointing at the same target: one
    /// fresh draw of `new_uuid` per distinct id, shared by the entity and
    /// every reference to it. The identifiers never collide: a draw that
    /// repeats one already handed out is drawn again, and should that repeat
    /// too, the first free reserve UUID takes its place, so distinct ids
    /// always get distinct UUIDs.
    pub fn assign_uuids(payload: &mut JsonValue)
        ensures
            exists|draws: Seq<Seq<char>>|
                {
                    &&& draws.len() == distinct_ids(payload_ids(old(payload)@)).len()
                    &&& forall|k: int| 0 <= k < draws.len() ==> is_uuid_v4_text(#[trigger] draws[k])
                    &&& draws.no_duplicates()
                    &&& forall|a: Seq<char>, b: Seq<char>|
                        #[trigger] payload_ids(old(payload)@).contains(a) && #[trigger] payload_ids(
                            old(payload)@,
                        ).contains(b) && a != b ==> draw_map(distinct_ids(payload_ids(old(payload)@)), draws)[a]
                            != draw_map(distinct_ids(payload_ids(old(payload)@)), draws)[b]
                    &&& final(payload)@ == remap_payload(
                        old(payload)@,
                        draw_map(distinct_ids(payload_ids(old(payload)@)), draws),
                    )
                },
            forall|k: Seq<char>| #[trigger] payload_ids(final(payload)@).contains(k) ==> is_uuid_v4_text(k),
            payload_ids(final(payload)@).len() == payload_ids(old(payload)@).len(),
    {
        let ghost before = payload@;
        let d = distinct_entity_ids(payload);
        let mut draws: Vec<String> = Vec::new();
        for i in 0..d.len()
            invariant
                draws.len() == i,
                forall|k: int| 0 <= k < i ==> is_uuid_v4_text(#[trigger] strings_model(draws@)[k]),
                strings_model(draws@).no_duplicates(),
        {
            let mut fresh = new_uuid();
            if holds_text(&draws, fresh.as_str()) {
                fresh = new_uuid();
            }
            if holds_text(&draws, fresh.as_str()) {
                fresh = unused_uuid(&draws);
            }
            let ghost prev = draws@;
            draws.push(fresh);
            assert(strings_model(draws@) =~= strings_model(prev).push(fresh@));
            assert forall|k: int| 0 <= k < i + 1 implies is_uuid_v4_text(#[trigger] strings_model(draws@)[k]) by {
                if k < i {
                    assert(draws@[k] == prev[k]);
                    assert(strings_model(draws@)[k] == strings_model(prev)[k]);
                } else {
                    assert(strings_model(draws@)[k] == fresh@);
                }
            }
        }
        let ghost ws = strings_model(draws@);
        let ghost dist = distinct_ids(payload_ids(before));
        Self::assign_drawn(payload, &draws);
        proof {
            let m = draw_map(dist, ws);
            lemma_distinct_ids(payload_ids(before));
            lemma_draw_map(dist, ws);
            assert forall|k: Seq<char>| #[trigger] payload_ids(before).contains(k) implies m.contains_key(k) by {
                assert(dist.contains(k));
            }
            law_remapped_ids(before, m);
            let after = payload_ids(payload@);
            assert forall|k: Seq<char>| #[trigger] after.contains(k) implies is_uuid_v4_text(k) by {
                let i = choose|i: int| 0 <= i < after.len() && after[i] == k;
                let old_id = payload_ids(before)[i];
                assert(payload_ids(before).contains(old_id));
                assert(dist.contains(old_id));
                let j = choose|j: int| 0 <= j < dist.len() && dist[j] == old_id;
                assert(m[old_id] == ws[j]);
                assert(after[i] == m[old_id]);
            }
            assert(ws.len() == dist.len());
            law_draw_map_one_to_one(payload_ids(before), ws);
            assert forall|a: Seq<char>, b: Seq<char>|
                #[trigger] payload_ids(before).contains(a) && #[trigger] payload_ids(before).contains(b) && a != b
                    implies m[a] != m[b] by {
                assert(m.contains_key(a) && m.contains_key(b));
            }
        }
    }
}

} // verus!
