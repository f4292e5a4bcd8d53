//! A small map from strings to strings, kept as a list of entries in the
//! order they were inserted; a later entry for a key hides earlier ones.

use vstd::prelude::*;

use crate::text::str_eq;

verus! {

/// The map that inserting `entries` one after another into an empty map gives.
pub open spec fn entries_map<V>(entries: Seq<(Seq<char>, V)>) -> Map<Seq<char>, V>
    decreases entries.len(),
{
    if entries.len() == 0 {
        Map::empty()
    } else {
        entries_map(entries.drop_last()).insert(entries.last().0, entries.last().1)
    }
}

pub struct StrMap {
    entries: Vec<(String, String)>,
}

pub open spec fn pairs_model(v: Seq<(String, String)>) -> Seq<(Seq<char>, Seq<char>)> {
    Seq::new(v.len(), |i: int| (v[i].0@, v[i].1@))
}

impl View for StrMap {
    type V = Map<Seq<char>, Seq<char>>;

    closed spec fn view(&self) -> Map<Seq<char>, Seq<char>> {
        entries_map(pairs_model(self.entries@))
    }
}

impl StrMap {
    pub fn new() -> (r: Self)
        ensures
            r@ == Map::<Seq<char>, Seq<char>>::empty(),
    {
        StrMap { entries: Vec::new() }
    }

    pub fn insert(&mut self, key: String, value: String)
        ensures
            final(self)@ == old(self)@.insert(key@, value@),
    {
        let ghost before = pairs_model(self.entries@);
        self.entries.push((key, value));
        assert(pairs_model(self.entries@).drop_last() =~= before);
    }

    /// The value stored under `key`.
    pub fn get(&self, key: &str) -> (r: Option<&String>)
        ensures
            match r {
                Some(v) => self@.contains_key(key@) && self@[key@] == v@,
                None => !self@.contains_key(key@),
            },
    {
        let ghost pm = pairs_model(self.entries@);
        let mut i = self.entries.len();
        assert(pm.take(i as int) =~= pm);
        while i > 0
            invariant
                i <= self.entries.len(),
                pm == pairs_model(self.entries@),
                entries_map(pm).contains_key(key@) == entries_map(pm.take(i as int)).contains_key(
                    key@,
                ),
                entries_map(pm).contains_key(key@) ==> entries_map(pm)[key@] == entries_map(
                    pm.take(i as int),
                )[key@],
            decreases i,
        {
            assert(pm.take(i as int).drop_last() =~= pm.take(i - 1));
            if str_eq(self.entries[i - 1].0.as_str(), key) {
                return Some(&self.entries[i - 1].1);
            }
            i = i - 1;
        }
        assert(pm.take(0) =~= Seq::<(Seq<char>, Seq<char>)>::empty());
        None
    }

    pub fn contains_key(&self, key: &str) -> (r: bool)
        ensures
            r == self@.contains_key(key@),
    {
        self.get(key).is_some()
    }
}

/// Replacing the value of the last entry with a key is inserting into the map.
pub proof fn lemma_entries_map_update_last<V>(s: Seq<(Seq<char>, V)>, i: int, v: V)
    requires
        0 <= i < s.len(),
        forall|j: int| i < j < s.len() ==> #[trigger] s[j].0 != s[i].0,
    ensures
        entries_map(s.update(i, (s[i].0, v))) == entries_map(s).insert(s[i].0, v),
    decreases s.len(),
{
    let k = s[i].0;
    let t = s.update(i, (k, v));
    if i == s.len() - 1 {
        assert(t.drop_last() =~= s.drop_last());
        assert(entries_map(t) =~= entries_map(s).insert(k, v));
    } else {
        assert(t.drop_last() =~= s.drop_last().update(i, (k, v)));
        lemma_entries_map_update_last(s.drop_last(), i, v);
        assert(s.last().0 != k);
        assert(entries_map(t) =~= entries_map(s).insert(k, v));
    }
}

/// Looking a key up from the last entry backwards finds the map's value.
pub proof fn lemma_entries_map_last<V>(s: Seq<(Seq<char>, V)>, i: int)
    requires
        0 <= i < s.len(),
        forall|j: int| i < j < s.len() ==> #[trigger] s[j].0 != s[i].0,
    ensures
        entries_map(s).contains_key(s[i].0),
        entries_map(s)[s[i].0] == s[i].1,
    decreases s.len(),
{
    if i < s.len() - 1 {
        lemma_entries_map_last(s.drop_last(), i);
    }
}

/// A key that no entry has is not in the map.
pub proof fn lemma_entries_map_absent<V>(s: Seq<(Seq<char>, V)>, k: Seq<char>)
    requires
        forall|j: int| 0 <= j < s.len() ==> #[trigger] s[j].0 != k,
    ensures
        !entries_map(s).contains_key(k),
    decreases s.len(),
{
    if s.len() > 0 {
        lemma_entries_map_absent(s.drop_last(), k);
    }
}

} // verus!
