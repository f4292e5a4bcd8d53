//! An owned JSON value, the data model that the ontology parser, the schema
//! generator and the Cypher generator read and build.
//!
//! Numbers are kept as their textual form: every consumer of the library only
//! ever prints them.

use vstd::prelude::*;

use crate::text::str_eq;

verus! {

/// The mathematical model of a JSON value.
pub enum Json {
    Null,
    Bool(bool),
    Number(Seq<char>),
    Str(Seq<char>),
    Array(Seq<Json>),
    Object(Seq<(Seq<char>, Json)>),
}

/// Look up `key` among the members of an object: the first member with that
/// key wins.
pub open spec fn members_get(members: Seq<(Seq<char>, Json)>, key: Seq<char>) -> Option<Json>
    decreases members.len(),
{
    if members.len() == 0 {
        None
    } else if members[0].0 == key {
        Some(members[0].1)
    } else {
        members_get(members.drop_first(), key)
    }
}

impl Json {
    pub open spec fn get(self, key: Seq<char>) -> Option<Json> {
        match self {
            Json::Object(members) => members_get(members, key),
            _ => None,
        }
    }

    pub open spec fn as_str(self) -> Option<Seq<char>> {
        match self {
            Json::Str(s) => Some(s),
            _ => None,
        }
    }

    pub open spec fn as_array(self) -> Option<Seq<Json>> {
        match self {
            Json::Array(items) => Some(items),
            _ => None,
        }
    }

    pub open spec fn as_object(self) -> Option<Seq<(Seq<char>, Json)>> {
        match self {
            Json::Object(members) => Some(members),
            _ => None,
        }
    }

    /// The string found under `key`, if the value is an object holding one.
    pub open spec fn get_str(self, key: Seq<char>) -> Option<Seq<char>> {
        match self.get(key) {
            Some(v) => v.as_str(),
            None => None,
        }
    }

    pub open spec fn is_null(self) -> bool {
        self is Null
    }
}

/// An owned JSON value.
#[derive(Debug, PartialEq)]
pub enum JsonValue {
    Null,
    Bool(bool),
    Number(String),
    String(String),
    Array(Vec<JsonValue>),
    Object(Vec<(String, JsonValue)>),
}

/// The models of a sequence of values.
pub open spec fn values_model(items: Seq<JsonValue>) -> Seq<Json> {
    Seq::new(items.len(), |i: int| items[i]@)
}

/// The models of a sequence of object members.
pub open spec fn members_model(members: Seq<(String, JsonValue)>) -> Seq<(Seq<char>, Json)> {
    Seq::new(members.len(), |i: int| (members[i].0@, members[i].1@))
}

impl JsonValue {
    pub open spec fn model(self) -> Json
        decreases self,
    {
        match self {
            JsonValue::Null => Json::Null,
            JsonValue::Bool(b) => Json::Bool(b),
            JsonValue::Number(n) => Json::Number(n@),
            JsonValue::String(s) => Json::Str(s@),
            JsonValue::Array(items) => Json::Array(
                Seq::new(
                    items.len() as nat,
                    |i: int|
                        if 0 <= i < items.len() {
                            items@[i].model()
                        } else {
                            Json::Null
                        },
                ),
            ),
            JsonValue::Object(members) => Json::Object(
                Seq::new(
                    members.len() as nat,
                    |i: int|
                        if 0 <= i < members.len() {
                            (members@[i].0@, members@[i].1.model())
                        } else {
                            (Seq::empty(), Json::Null)
                        },
                ),
            ),
        }
    }
}

impl View for JsonValue {
    type V = Json;

    open spec fn view(&self) -> Json {
        self.model()
    }
}

pub proof fn lemma_array_model(items: Vec<JsonValue>)
    ensures
        JsonValue::Array(items)@ == Json::Array(values_model(items@)),
{
    assert(JsonValue::Array(items)@->Array_0 =~= values_model(items@));
}

pub proof fn lemma_object_model(members: Vec<(String, JsonValue)>)
    ensures
        JsonValue::Object(members)@ == Json::Object(members_model(members@)),
{
    assert(JsonValue::Object(members)@->Object_0 =~= members_model(members@));
}

/// Find `key` among `members`, returning the index of the first match.
pub fn find_member(members: &Vec<(String, JsonValue)>, key: &str) -> (r: Option<usize>)
    ensures
        match r {
            Some(i) => i < members.len() && members_get(members_model(members@), key@) == Some(
                members@[i as int].1@,
            ) && members@[i as int].0@ == key@,
            None => members_get(members_model(members@), key@) is None,
        },
{
    let ghost m = members_model(members@);
    let mut i: usize = 0;
    assert(m.skip(0) =~= m);
    while i < members.len()
        invariant
            i <= members.len(),
            m == members_model(members@),
            members_get(m, key@) == members_get(m.skip(i as int), key@),
        decreases members.len() - i,
    {
        assert(m.skip(i as int).drop_first() =~= m.skip(i + 1));
        if str_eq(members[i].0.as_str(), key) {
            return Some(i);
        }
        i = i + 1;
    }
    assert(m.skip(i as int).len() == 0);
    None
}

impl JsonValue {
    /// The member stored under `key`, when `self` is an object that has one.
    pub fn get(&self, key: &str) -> (r: Option<&JsonValue>)
        ensures
            match r {
                Some(v) => self@.get(key@) == Some(v@),
                None => self@.get(key@) is None,
            },
    {
        match self {
            JsonValue::Object(members) => {
                proof {
                    lemma_object_model(*members);
                }
                match find_member(members, key) {
                    Some(i) => Some(&members[i].1),
                    None => None,
                }
            },
            _ => None,
        }
    }

    pub fn as_str(&self) -> (r: Option<&str>)
        ensures
            match r {
                Some(s) => self@.as_str() == Some(s@),
                None => self@.as_str() is None,
            },
    {
        match self {
            JsonValue::String(s) => Some(s.as_str()),
            _ => None,
        }
    }

    pub fn as_array(&self) -> (r: Option<&Vec<JsonValue>>)
        ensures
            match r {
                Some(items) => self@.as_array() == Some(values_model(items@)),
                None => self@.as_array() is None,
            },
    {
        match self {
            JsonValue::Array(items) => {
                proof {
                    lemma_array_model(*items);
                }
                Some(items)
            },
            _ => None,
        }
    }

    pub fn as_object(&self) -> (r: Option<&Vec<(String, JsonValue)>>)
        ensures
            match r {
                Some(members) => self@.as_object() == Some(members_model(members@)),
                None => self@.as_object() is None,
            },
    {
        match self {
            JsonValue::Object(members) => {
                proof {
                    lemma_object_model(*members);
                }
                Some(members)
            },
            _ => None,
        }
    }

    /// The string stored under `key`, when `self` is an object that has one.
    pub fn get_str(&self, key: &str) -> (r: Option<&str>)
        ensures
            match r {
                Some(s) => self@.get_str(key@) == Some(s@),
                None => self@.get_str(key@) is None,
            },
    {
        match self.get(key) {
            Some(v) => v.as_str(),
            None => None,
        }
    }

    pub fn is_null(&self) -> (r: bool)
        ensures
            r == self@.is_null(),
    {
        match self {
            JsonValue::Null => true,
            _ => false,
        }
    }
}

/// `members` with `key` set to `val`: the first member with that key takes
/// the new value in place, or a new member is added at the end.
pub open spec fn members_set(members: Seq<(Seq<char>, Json)>, key: Seq<char>, val: Json) -> Seq<
    (Seq<char>, Json),
>
    decreases members.len(),
{
    if members.len() == 0 {
        seq![(key, val)]
    } else if members[0].0 == key {
        members.update(0, (key, val))
    } else {
        seq![members[0]] + members_set(members.drop_first(), key, val)
    }
}

/// `v[key] = val`: a null becomes an object with that one member, an object
/// has the member set; other values cannot take a member.
pub open spec fn set_member(v: Json, key: Seq<char>, val: Json) -> Json {
    match v {
        Json::Null => Json::Object(seq![(key, val)]),
        Json::Object(members) => Json::Object(members_set(members, key, val)),
        _ => v,
    }
}

pub proof fn lemma_members_set_found(m: Seq<(Seq<char>, Json)>, key: Seq<char>, val: Json, k: int)
    requires
        0 <= k < m.len(),
        m[k].0 == key,
        forall|j: int| 0 <= j < k ==> #[trigger] m[j].0 != key,
    ensures
        members_set(m, key, val) == m.update(k, (key, val)),
    decreases k,
{
    if k > 0 {
        assert(m[0].0 != key);
        lemma_members_set_found(m.drop_first(), key, val, k - 1);
        assert(seq![m[0]] + m.drop_first().update(k - 1, (key, val)) =~= m.update(k, (key, val)));
    }
}

pub proof fn lemma_members_set_absent(m: Seq<(Seq<char>, Json)>, key: Seq<char>, val: Json)
    requires
        forall|j: int| 0 <= j < m.len() ==> #[trigger] m[j].0 != key,
    ensures
        members_set(m, key, val) == m.push((key, val)),
    decreases m.len(),
{
    if m.len() > 0 {
        assert(m[0].0 != key);
        assert forall|j: int| 0 <= j < m.drop_first().len() implies #[trigger] m.drop_first()[j].0
            != key by {
            assert(m.drop_first()[j] == m[j + 1]);
        }
        lemma_members_set_absent(m.drop_first(), key, val);
        assert(seq![m[0]] + m.drop_first().push((key, val)) =~= m.push((key, val)));
    }
}

/// Setting `k` gives `k` the new value and leaves every other key alone.
pub proof fn lemma_members_set_get(
    ms: Seq<(Seq<char>, Json)>,
    k: Seq<char>,
    v: Json,
    k2: Seq<char>,
)
    ensures
        members_get(members_set(ms, k, v), k2) == if k2 == k {
            Some(v)
        } else {
            members_get(ms, k2)
        },
    decreases ms.len(),
{
    let out = members_set(ms, k, v);
    if ms.len() == 0 {
        assert(out =~= seq![(k, v)]);
        assert(out.drop_first() =~= Seq::<(Seq<char>, Json)>::empty());
        assert(members_get(out.drop_first(), k2) is None);
    } else if ms[0].0 == k {
        assert(out =~= ms.update(0, (k, v)));
        assert(out[0] == (k, v));
        assert(out.drop_first() =~= ms.drop_first());
        if k2 != k {
            assert(members_get(out, k2) == members_get(out.drop_first(), k2));
            assert(members_get(ms, k2) == members_get(ms.drop_first(), k2));
        }
    } else {
        let tail = members_set(ms.drop_first(), k, v);
        lemma_members_set_get(ms.drop_first(), k, v, k2);
        assert(out =~= seq![ms[0]] + tail);
        assert(out[0] == ms[0]);
        assert(out.drop_first() =~= tail);
        if ms[0].0 != k2 {
            assert(members_get(out, k2) == members_get(tail, k2));
            assert(members_get(ms, k2) == members_get(ms.drop_first(), k2));
        }
    }
}

/// Looking up a key after a member is pushed: an earlier member wins.
pub proof fn lemma_members_get_push(ms: Seq<(Seq<char>, Json)>, p: (Seq<char>, Json), k: Seq<char>)
    ensures
        members_get(ms.push(p), k) == if members_get(ms, k) is Some {
            members_get(ms, k)
        } else if p.0 == k {
            Some(p.1)
        } else {
            None
        },
    decreases ms.len(),
{
    if ms.len() == 0 {
        assert(ms.push(p).drop_first() =~= Seq::<(Seq<char>, Json)>::empty());
    } else {
        assert(ms.push(p)[0] == ms[0]);
        assert(ms.push(p).drop_first() =~= ms.drop_first().push(p));
        lemma_members_get_push(ms.drop_first(), p, k);
    }
}

/// A well-formed value: no object holds a key twice, at any depth, as a JSON
/// text read by serde_json never does.
pub open spec fn json_wf(v: Json) -> bool
    decreases v, 1int,
{
    match v {
        Json::Array(items) => items_wf(items),
        Json::Object(members) => members_wf(members),
        _ => true,
    }
}

pub open spec fn items_wf(items: Seq<Json>) -> bool
    decreases items, 0int,
{
    if items.len() == 0 {
        true
    } else {
        items_wf(items.drop_last()) && json_wf(items.last())
    }
}

pub open spec fn members_wf(members: Seq<(Seq<char>, Json)>) -> bool
    decreases members, 0int,
{
    if members.len() == 0 {
        true
    } else {
        members_wf(members.drop_last()) && json_wf(members.last().1) && members_get(
            members.drop_last(),
            members.last().0,
        ) is None
    }
}

/// A key is missing exactly when no member has it.
pub proof fn lemma_members_get_none(ms: Seq<(Seq<char>, Json)>, k: Seq<char>)
    ensures
        members_get(ms, k) is None <==> forall|i: int| 0 <= i < ms.len() ==> (#[trigger] ms[i]).0 != k,
    decreases ms.len(),
{
    if ms.len() > 0 {
        let t = ms.drop_first();
        lemma_members_get_none(t, k);
        if forall|i: int| 0 <= i < t.len() ==> (#[trigger] t[i]).0 != k {
            assert forall|i: int| 0 <= i < ms.len() && i > 0 implies (#[trigger] ms[i]).0 != k by {
                assert(ms[i] == t[i - 1]);
            }
        }
        if forall|i: int| 0 <= i < ms.len() ==> (#[trigger] ms[i]).0 != k {
            assert forall|i: int| 0 <= i < t.len() implies (#[trigger] t[i]).0 != k by {
                assert(t[i] == ms[i + 1]);
            }
        }
    }
}

/// Well-formed members: each value well-formed, no key twice.
pub proof fn lemma_members_wf(ms: Seq<(Seq<char>, Json)>)
    ensures
        members_wf(ms) <==> (forall|i: int| 0 <= i < ms.len() ==> json_wf(#[trigger] ms[i].1)) && (forall|
            i: int,
            j: int,
        | 0 <= i < j < ms.len() ==> (#[trigger] ms[i]).0 != (#[trigger] ms[j]).0),
    decreases ms.len(),
{
    if ms.len() > 0 {
        let f = ms.drop_last();
        let l = ms.last();
        lemma_members_wf(f);
        lemma_members_get_none(f, l.0);
        assert forall|i: int| 0 <= i < f.len() implies f[i] == ms[i] by {}
        assert(ms[ms.len() - 1] == l);
    }
}

pub proof fn lemma_items_wf(items: Seq<Json>)
    ensures
        items_wf(items) <==> forall|i: int| 0 <= i < items.len() ==> json_wf(#[trigger] items[i]),
    decreases items.len(),
{
    if items.len() > 0 {
        let f = items.drop_last();
        lemma_items_wf(f);
        assert forall|i: int| 0 <= i < f.len() implies f[i] == items[i] by {}
        assert(items[items.len() - 1] == items.last());
    }
}

proof fn lemma_members_set_wf(ms: Seq<(Seq<char>, Json)>, k: Seq<char>, val: Json)
    requires
        members_wf(ms),
        json_wf(val),
    ensures
        members_wf(members_set(ms, k, val)),
{
    lemma_members_wf(ms);
    let out = members_set(ms, k, val);
    if exists|i: int| 0 <= i < ms.len() && (#[trigger] ms[i]).0 == k {
        let i = choose|i: int| 0 <= i < ms.len() && (#[trigger] ms[i]).0 == k;
        assert forall|j: int| 0 <= j < i implies (#[trigger] ms[j]).0 != k by {}
        lemma_members_set_found(ms, k, val, i);
        assert forall|a: int, b: int| 0 <= a < b < out.len() implies (#[trigger] out[a]).0 != (#[trigger] out[b]).0 by {
            assert(out[a].0 == ms[a].0 && out[b].0 == ms[b].0);
        }
        assert forall|a: int| 0 <= a < out.len() implies json_wf(#[trigger] out[a].1) by {
            if a != i {
                assert(out[a] == ms[a]);
            }
        }
    } else {
        lemma_members_set_absent(ms, k, val);
        assert forall|a: int, b: int| 0 <= a < b < out.len() implies (#[trigger] out[a]).0 != (#[trigger] out[b]).0 by {
            if b == ms.len() {
                assert(out[a] == ms[a]);
            } else {
                assert(out[a] == ms[a] && out[b] == ms[b]);
            }
        }
        assert forall|a: int| 0 <= a < out.len() implies json_wf(#[trigger] out[a].1) by {
            if a < ms.len() {
                assert(out[a] == ms[a]);
            }
        }
    }
    lemma_members_wf(out);
}

/// Setting a member keeps a value well-formed.
pub proof fn lemma_set_member_wf(v: Json, k: Seq<char>, val: Json)
    requires
        json_wf(v),
        json_wf(val),
    ensures
        json_wf(set_member(v, k, val)),
{
    match v {
        Json::Null => {
            lemma_members_wf(seq![(k, val)]);
        },
        Json::Object(ms) => {
            lemma_members_set_wf(ms, k, val);
        },
        _ => {},
    }
}

/// The index of the first member with `key`.
fn find_member_index(members: &Vec<(String, JsonValue)>, key: &str) -> (r: Option<usize>)
    ensures
        match r {
            Some(i) => i < members.len() && members@[i as int].0@ == key@ && forall|j: int|
                0 <= j < i ==> #[trigger] members@[j].0@ != key@,
            None => forall|j: int| 0 <= j < members.len() ==> #[trigger] members@[j].0@ != key@,
        },
{
    for i in 0..members.len()
        invariant
            forall|j: int| 0 <= j < i ==> #[trigger] members@[j].0@ != key@,
    {
        if str_eq(members[i].0.as_str(), key) {
            return Some(i);
        }
    }
    None
}

impl JsonValue {
    /// An empty object.
    pub fn new_object() -> (r: JsonValue)
        ensures
            r@ == Json::Object(Seq::empty()),
            json_wf(r@),
    {
        let members: Vec<(String, JsonValue)> = Vec::new();
        proof {
            lemma_object_model(members);
        }
        assert(members_model(members@) =~= Seq::<(Seq<char>, Json)>::empty());
        JsonValue::Object(members)
    }

    /// `self[key] = val`.
    pub fn set(&mut self, key: String, val: JsonValue)
        ensures
            final(self)@ == set_member(old(self)@, key@, val@),
            json_wf(old(self)@) && json_wf(val@) ==> json_wf(final(self)@),
    {
        proof {
            if json_wf(self@) && json_wf(val@) {
                lemma_set_member_wf(self@, key@, val@);
            }
        }
        let ghost kv = key@;
        let ghost vv = val@;
        match self {
            JsonValue::Null => {
                let mut members: Vec<(String, JsonValue)> = Vec::new();
                members.push((key, val));
                proof {
                    lemma_object_model(members);
                }
                assert(members_model(members@) =~= seq![(kv, vv)]);
                *self = JsonValue::Object(members);
            },
            JsonValue::Object(members) => {
                let ghost before = members@;
                proof {
                    lemma_object_model(*members);
                }
                match find_member_index(members, key.as_str()) {
                    Some(i) => {
                        proof {
                            assert forall|j: int| 0 <= j < i implies #[trigger] members_model(
                                before,
                            )[j].0 != kv by {
                                assert(members_model(before)[j].0 == before[j].0@);
                            }
                            lemma_members_set_found(members_model(before), kv, vv, i as int);
                        }
                        members.remove(i);
                        members.insert(i, (key, val));
                        assert(members@ =~= before.update(i as int, (members@[i as int].0, members@[i as int].1)));
                        proof {
                            lemma_object_model(*members);
                        }
                        assert(members_model(members@) =~= members_model(before).update(
                            i as int,
                            (kv, vv),
                        ));
                    },
                    None => {
                        proof {
                            assert forall|j: int| 0 <= j < members_model(before).len() implies #[trigger] members_model(
                                before,
                            )[j].0 != kv by {
                                assert(members_model(before)[j].0 == before[j].0@);
                            }
                            lemma_members_set_absent(members_model(before), kv, vv);
                        }
                        members.push((key, val));
                        proof {
                            lemma_object_model(*members);
                        }
                        assert(members_model(members@) =~= members_model(before).push((kv, vv)));
                    },
                }
            },
            _ => {},
        }
    }

    /// A deep copy.
    pub fn deep_copy(&self) -> (r: JsonValue)
        ensures
            r@ == self@,
            json_wf(self@) ==> json_wf(r@),
        decreases self@,
    {
        match self {
            JsonValue::Null => JsonValue::Null,
            JsonValue::Bool(b) => JsonValue::Bool(*b),
            JsonValue::Number(n) => JsonValue::Number(crate::text::to_owned(n.as_str())),
            JsonValue::String(s) => JsonValue::String(crate::text::to_owned(s.as_str())),
            JsonValue::Array(items) => {
                proof {
                    lemma_array_model(*items);
                }
                let ghost va = values_model(items@);
                let mut r: Vec<JsonValue> = Vec::new();
                for i in 0..items.len()
                    invariant
                        va == values_model(items@),
                        self@ == Json::Array(va),
                        r.len() == i,
                        values_model(r@) == va.take(i as int),
                {
                    proof {
                        assert(decreases_to!(self@ => self@->Array_0));
                        assert(decreases_to!(va => va[i as int]));
                    }
                    let ghost before = r@;
                    let c = items[i].deep_copy();
                    r.push(c);
                    assert forall|j: int| 0 <= j < i + 1 implies #[trigger] values_model(r@)[j]
                        == va.take(i + 1)[j] by {
                        if j < i {
                            assert(r@[j] == before[j]);
                            assert(values_model(before)[j] == va.take(i as int)[j]);
                        }
                    }
                    assert(values_model(r@) =~= va.take(i + 1));
                }
                assert(va.take(items.len() as int) =~= va);
                proof {
                    lemma_array_model(r);
                }
                JsonValue::Array(r)
            },
            JsonValue::Object(members) => {
                proof {
                    lemma_object_model(*members);
                }
                let ghost mm = members_model(members@);
                let mut r: Vec<(String, JsonValue)> = Vec::new();
                for i in 0..members.len()
                    invariant
                        mm == members_model(members@),
                        self@ == Json::Object(mm),
                        r.len() == i,
                        members_model(r@) == mm.take(i as int),
                {
                    proof {
                        assert(decreases_to!(self@ => self@->Object_0));
                        assert(decreases_to!(mm => mm[i as int]));
                        assert(decreases_to!(mm[i as int] => mm[i as int].1));
                    }
                    let ghost before = r@;
                    let c = members[i].1.deep_copy();
                    let k = crate::text::to_owned(members[i].0.as_str());
                    r.push((k, c));
                    assert forall|j: int| 0 <= j < i + 1 implies #[trigger] members_model(r@)[j]
                        == mm.take(i + 1)[j] by {
                        if j < i {
                            assert(r@[j] == before[j]);
                            assert(members_model(before)[j] == mm.take(i as int)[j]);
                        }
                    }
                    assert(members_model(r@) =~= mm.take(i + 1));
                }
                assert(mm.take(members.len() as int) =~= mm);
                proof {
                    lemma_object_model(r);
                }
                JsonValue::Object(r)
            },
        }
    }
}

} // verus!
