//! Resolution of prefixed JSON-LD terms (e.g. `ex:Person`) to full IRIs and
//! back to the short names that the `@context` gives them.

use vstd::prelude::*;

use crate::assoc::StrMap;
use crate::json::{members_model, Json, JsonValue};
use crate::text::{
    push_char, split_once, starts_with, str_split_once, str_starts_with,
    str_trim_end_char, to_owned, trim_end_char,
};

verus! {

pub struct ResolverModel {
    /// Direct prefix -> absolute IRI base (e.g. `schema` -> `http://schema.org/`).
    pub prefixes: Map<Seq<char>, Seq<char>>,
    /// Term alias -> term (e.g. `company` -> `schema:Organization`).
    pub aliases: Map<Seq<char>, Seq<char>>,
    /// Full IRI -> short (context key) name.
    pub short_names: Map<Seq<char>, Seq<char>>,
    /// How many aliases an expansion may follow, one after another: the
    /// number of context entries, enough for any chain of distinct aliases.
    pub fuel: nat,
}

/// `s` with exactly one `/` at its end.
pub open spec fn with_trailing_slash(s: Seq<char>) -> Seq<char> {
    trim_end_char(s, '/').push('/')
}

/// Expand `term` to a full IRI: an absolute `http://` or `https://` IRI
/// stands as it is; `prefix:local` becomes the prefix's base followed by
/// `local`. `None` when the term has no known prefix, or when following
/// aliases takes more than `fuel` steps.
pub open spec fn expand_term(
    prefixes: Map<Seq<char>, Seq<char>>,
    aliases: Map<Seq<char>, Seq<char>>,
    term: Seq<char>,
    fuel: nat,
) -> Option<Seq<char>>
    decreases fuel, 1int,
{
    if starts_with(term, "http://"@) || starts_with(term, "https://"@) {
        Some(term)
    } else {
        match split_once(term, ':') {
            Some((prefix, local)) => match prefix_base(prefixes, aliases, prefix, fuel) {
                Some(base) => Some(base + local),
                None => None,
            },
            None => None,
        }
    }
}

/// The absolute IRI base of a namespace prefix, ending in `/`: a direct
/// prefix as declared, an alias by expanding the term it stands for.
pub open spec fn prefix_base(
    prefixes: Map<Seq<char>, Seq<char>>,
    aliases: Map<Seq<char>, Seq<char>>,
    prefix: Seq<char>,
    fuel: nat,
) -> Option<Seq<char>>
    decreases fuel, 0int,
{
    if prefixes.contains_key(prefix) {
        Some(prefixes[prefix])
    } else if aliases.contains_key(prefix) {
        if fuel == 0 {
            None
        } else {
            match expand_term(prefixes, aliases, aliases[prefix], (fuel - 1) as nat) {
                Some(iri) => Some(with_trailing_slash(iri)),
                None => None,
            }
        }
    } else {
        None
    }
}

/// The first pass over the context: a string value under a key without `:`
/// declares a direct prefix when it starts with `http`, an alias otherwise.
pub open spec fn declarations(members: Seq<(Seq<char>, Json)>) -> (
    Map<Seq<char>, Seq<char>>,
    Map<Seq<char>, Seq<char>>,
)
    decreases members.len(),
{
    if members.len() == 0 {
        (Map::empty(), Map::empty())
    } else {
        let (prefixes, aliases) = declarations(members.drop_last());
        let (key, val) = members.last();
        match val {
            Json::Str(s) => if split_once(key, ':') is None {
                if starts_with(s, "http"@) {
                    (prefixes.insert(key, with_trailing_slash(s)), aliases)
                } else {
                    (prefixes, aliases.insert(key, s))
                }
            } else {
                (prefixes, aliases)
            },
            _ => (prefixes, aliases),
        }
    }
}

/// The IRI that a context entry names: its string value, or the `@id` of
/// its object value.
pub open spec fn entry_term(val: Json) -> Option<Seq<char>> {
    match val {
        Json::Str(s) => Some(s),
        Json::Object(_) => val.get_str("@id"@),
        _ => None,
    }
}

/// The second pass over the context: each entry's term, expanded, is named
/// by the entry's key; a later entry wins.
pub open spec fn short_name_table(
    prefixes: Map<Seq<char>, Seq<char>>,
    aliases: Map<Seq<char>, Seq<char>>,
    fuel: nat,
    members: Seq<(Seq<char>, Json)>,
) -> Map<Seq<char>, Seq<char>>
    decreases members.len(),
{
    if members.len() == 0 {
        Map::empty()
    } else {
        let before = short_name_table(prefixes, aliases, fuel, members.drop_last());
        let (key, val) = members.last();
        match entry_term(val) {
            Some(t) => match expand_term(prefixes, aliases, t, fuel) {
                Some(full) => before.insert(full, key),
                None => before,
            },
            None => before,
        }
    }
}

/// The resolver that a `@context` object gives.
pub open spec fn resolver_of(context: Option<Seq<(Seq<char>, Json)>>) -> ResolverModel {
    match context {
        None => ResolverModel {
            prefixes: Map::empty(),
            aliases: Map::empty(),
            short_names: Map::empty(),
            fuel: 0,
        },
        Some(members) => {
            let (prefixes, aliases) = declarations(members);
            ResolverModel {
                prefixes,
                aliases,
                short_names: short_name_table(prefixes, aliases, members.len(), members),
                fuel: members.len(),
            }
        },
    }
}

pub open spec fn expand(r: ResolverModel, term: Seq<char>) -> Option<Seq<char>> {
    expand_term(r.prefixes, r.aliases, term, r.fuel)
}

/// `term` as a full IRI, or `term` itself.
pub open spec fn resolve_iri(r: ResolverModel, term: Seq<char>) -> Seq<char> {
    match expand(r, term) {
        Some(iri) => iri,
        None => term,
    }
}

/// The short name of `term`, or `term` itself.
pub open spec fn resolve(r: ResolverModel, term: Seq<char>) -> Seq<char> {
    let iri = resolve_iri(r, term);
    if r.short_names.contains_key(iri) {
        r.short_names[iri]
    } else {
        term
    }
}

/// Resolves prefixed terms (e.g. `ex:Person`) to full IRIs and back to short names.
pub struct PrefixResolver {
    prefixes: StrMap,
    aliases: StrMap,
    short_names: StrMap,
    fuel: usize,
}

impl View for PrefixResolver {
    type V = ResolverModel;

    closed spec fn view(&self) -> ResolverModel {
        ResolverModel {
            prefixes: self.prefixes@,
            aliases: self.aliases@,
            short_names: self.short_names@,
            fuel: self.fuel as nat,
        }
    }
}

/// `s` with exactly one `/` at its end.
fn trailing_slash(s: &str) -> (r: String)
    ensures
        r@ == with_trailing_slash(s@),
{
    let mut r = str_trim_end_char(s, '/');
    push_char(&mut r, '/');
    r
}

impl PrefixResolver {
    pub fn new(context: Option<&Vec<(String, JsonValue)>>) -> (r: Self)
        ensures
            r@ == resolver_of(
                match context {
                    Some(members) => Some(members_model(members@)),
                    None => None,
                },
            ),
    {
        let mut resolver = PrefixResolver {
            prefixes: StrMap::new(),
            aliases: StrMap::new(),
            short_names: StrMap::new(),
            fuel: 0,
        };
        let members = match context {
            Some(members) => members,
            None => {
                return resolver;
            },
        };
        let ghost mm = members_model(members@);
        resolver.fuel = members.len();
        // First pass: collect prefix declarations and term aliases.
        assert(mm.take(0) =~= Seq::<(Seq<char>, Json)>::empty());
        for i in 0..members.len()
            invariant
                mm == members_model(members@),
                resolver.fuel == members.len(),
                resolver.short_names@ == Map::<Seq<char>, Seq<char>>::empty(),
                (resolver.prefixes@, resolver.aliases@) == declarations(mm.take(i as int)),
        {
            assert(mm.take(i + 1).drop_last() =~= mm.take(i as int));
            let key = &members[i].0;
            match &members[i].1 {
                JsonValue::String(s) => {
                    if str_split_once(key.as_str(), ':').is_none() {
                        if str_starts_with(s.as_str(), "http") {
                            resolver.prefixes.insert(to_owned(key.as_str()), trailing_slash(s.as_str()));
                        } else {
                            resolver.aliases.insert(to_owned(key.as_str()), to_owned(s.as_str()));
                        }
                    }
                },
                _ => {},
            }
        }
        assert(mm.take(members.len() as int) =~= mm);
        // Second pass: resolve terms to full IRIs.
        for i in 0..members.len()
            invariant
                mm == members_model(members@),
                resolver.fuel == members.len(),
                (resolver.prefixes@, resolver.aliases@) == declarations(mm),
                resolver.short_names@ == short_name_table(
                    resolver.prefixes@,
                    resolver.aliases@,
                    mm.len(),
                    mm.take(i as int),
                ),
        {
            assert(mm.take(i + 1).drop_last() =~= mm.take(i as int));
            let term: Option<&str> = match &members[i].1 {
                JsonValue::String(s) => Some(s.as_str()),
                JsonValue::Object(_) => members[i].1.get_str("@id"),
                _ => None,
            };
            match term {
                Some(t) => {
                    match resolver.expand(t) {
                        Some(full) => {
                            resolver.short_names.insert(full, to_owned(members[i].0.as_str()));
                        },
                        None => {},
                    }
                },
                None => {},
            }
        }
        assert(mm.take(members.len() as int) =~= mm);
        resolver
    }

    fn base_within(&self, prefix: &str, fuel: usize) -> (r: Option<String>)
        ensures
            match r {
                Some(b) => prefix_base(self@.prefixes, self@.aliases, prefix@, fuel as nat) == Some(b@),
                None => prefix_base(self@.prefixes, self@.aliases, prefix@, fuel as nat) is None,
            },
        decreases fuel, 0int,
    {
        if let Some(base) = self.prefixes.get(prefix) {
            return Some(to_owned(base.as_str()));
        }
        if let Some(alias) = self.aliases.get(prefix) {
            if fuel == 0 {
                return None;
            }
            return match self.expand_within(alias.as_str(), fuel - 1) {
                Some(iri) => Some(trailing_slash(iri.as_str())),
                None => None,
            };
        }
        None
    }

    fn expand_within(&self, term: &str, fuel: usize) -> (r: Option<String>)
        ensures
            match r {
                Some(iri) => expand_term(self@.prefixes, self@.aliases, term@, fuel as nat) == Some(
                    iri@,
                ),
                None => expand_term(self@.prefixes, self@.aliases, term@, fuel as nat) is None,
            },
        decreases fuel, 1int,
    {
        if str_starts_with(term, "http://") || str_starts_with(term, "https://") {
            return Some(to_owned(term));
        }
        match str_split_once(term, ':') {
            Some((prefix, local)) => match self.base_within(prefix.as_str(), fuel) {
                Some(base) => {
                    let mut iri = base;
                    iri.append(local.as_str());
                    Some(iri)
                },
                None => None,
            },
            None => None,
        }
    }

    /// Resolve a namespace prefix to an absolute IRI base ending in `/`.
    pub fn resolve_base(&self, prefix: &str) -> (r: Option<String>)
        ensures
            match r {
                Some(b) => prefix_base(self@.prefixes, self@.aliases, prefix@, self@.fuel) == Some(b@),
                None => prefix_base(self@.prefixes, self@.aliases, prefix@, self@.fuel) is None,
            },
    {
        self.base_within(prefix, self.fuel)
    }

    /// Expand `term` to a full IRI.
    pub fn expand(&self, term: &str) -> (r: Option<String>)
        ensures
            match r {
                Some(iri) => expand(self@, term@) == Some(iri@),
                None => expand(self@, term@) is None,
            },
    {
        self.expand_within(term, self.fuel)
    }

    /// Expand `term` to a full IRI, falling back to the raw term.
    pub fn resolve_iri(&self, term: &str) -> (r: String)
        ensures
            r@ == resolve_iri(self@, term@),
    {
        match self.expand(term) {
            Some(iri) => iri,
            None => to_owned(term),
        }
    }

    /// Resolve `term` to a short display name, falling back to the raw term.
    pub fn resolve(&self, term: &str) -> (r: String)
        ensures
            r@ == resolve(self@, term@),
    {
        let iri = self.resolve_iri(term);
        match self.short_names.get(iri.as_str()) {
            Some(name) => to_owned(name.as_str()),
            None => to_owned(term),
        }
    }
}

} // verus!
