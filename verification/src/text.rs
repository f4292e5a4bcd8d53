//! Character and string helpers shared by the parser and the generators.

use vstd::prelude::*;

verus! {

broadcast use vstd::string::group_string_axioms;

/// `String::push`: appends one character.
#[verifier::external_body]
pub(crate) fn push_char(s: &mut String, c: char)
    ensures
        final(s)@ == old(s)@.push(c),
{
    s.push(c);
}

/// The characters of `s`, in order.
pub fn chars_of(s: &str) -> (v: Vec<char>)
    ensures
        v@ == s@,
{
    let mut v: Vec<char> = Vec::new();
    for c in it: s.chars()
        invariant
            it.seq() == s@,
            v@ == s@.take(it.index()),
    {
        assert(s@.take(it.index() + 1) == s@.take(it.index()).push(c));
        v.push(c);
    }
    assert(s@.take(s@.len() as int) =~= s@);
    v
}

/// Whether two string slices hold the same characters.
pub fn str_eq(a: &str, b: &str) -> (r: bool)
    ensures
        r == (a@ == b@),
{
    let x = chars_of(a);
    let y = chars_of(b);
    if x.len() != y.len() {
        return false;
    }
    for i in 0..x.len()
        invariant
            x@ == a@,
            y@ == b@,
            x.len() == y.len(),
            forall|j: int| 0 <= j < i ==> #[trigger] x@[j] == y@[j],
    {
        if x[i] != y[i] {
            return false;
        }
    }
    assert(a@ =~= b@);
    true
}

/// A copy of `s` as an owned string.
pub fn to_owned(s: &str) -> (r: String)
    ensures
        r@ == s@,
{
    let mut r = String::new();
    r.append(s);
    r
}

pub open spec fn is_ascii_lower(c: char) -> bool {
    'a' <= c && c <= 'z'
}

pub open spec fn is_ascii_upper(c: char) -> bool {
    'A' <= c && c <= 'Z'
}

pub open spec fn is_ascii_alpha(c: char) -> bool {
    is_ascii_lower(c) || is_ascii_upper(c)
}

pub open spec fn is_ascii_digit(c: char) -> bool {
    '0' <= c && c <= '9'
}

pub open spec fn is_ascii_alnum(c: char) -> bool {
    is_ascii_alpha(c) || is_ascii_digit(c)
}

/// A character that may stand in a Cypher identifier: ASCII letters and
/// digits, and `_`.
pub open spec fn is_ident_char(c: char) -> bool {
    is_ascii_alnum(c) || c == '_'
}

/// The ASCII lower-case form of `c`; other characters are unchanged.
pub open spec fn ascii_lower(c: char) -> char {
    if is_ascii_upper(c) {
        ((c as int) + 32) as char
    } else {
        c
    }
}

pub fn char_is_ascii_digit(c: char) -> (r: bool)
    ensures
        r == is_ascii_digit(c),
{
    '0' <= c && c <= '9'
}

pub fn char_is_ident(c: char) -> (r: bool)
    ensures
        r == is_ident_char(c),
{
    ('a' <= c && c <= 'z') || ('A' <= c && c <= 'Z') || ('0' <= c && c <= '9') || c == '_'
}

pub fn char_to_ascii_lower(c: char) -> (r: char)
    ensures
        r == ascii_lower(c),
{
    if 'A' <= c && c <= 'Z' {
        let code: u32 = c as u32;
        let b: u8 = code as u8;
        assert(b == c as int);
        let lower: u8 = b + 32;
        lower as char
    } else {
        c
    }
}

/// The ASCII lower-case form of a string.
pub open spec fn ascii_lowercase(s: Seq<char>) -> Seq<char> {
    s.map_values(|c: char| ascii_lower(c))
}

/// `a` and `b` are equal when ASCII letters are compared without case.
pub open spec fn eq_ignore_ascii_case(a: Seq<char>, b: Seq<char>) -> bool {
    ascii_lowercase(a) == ascii_lowercase(b)
}

/// `str::to_ascii_lowercase`.
pub fn to_ascii_lowercase(s: &str) -> (r: String)
    ensures
        r@ == ascii_lowercase(s@),
{
    let cs = chars_of(s);
    let mut r = String::new();
    for i in 0..cs.len()
        invariant
            cs@ == s@,
            r@ == ascii_lowercase(s@.take(i as int)),
    {
        let l = char_to_ascii_lower(cs[i]);
        push_char(&mut r, l);
        assert(ascii_lowercase(s@.take(i + 1)) =~= ascii_lowercase(s@.take(i as int)).push(l));
    }
    assert(s@.take(cs.len() as int) =~= s@);
    r
}

/// `str::eq_ignore_ascii_case`.
pub fn str_eq_ignore_ascii_case(a: &str, b: &str) -> (r: bool)
    ensures
        r == eq_ignore_ascii_case(a@, b@),
{
    let x = chars_of(a);
    let y = chars_of(b);
    if x.len() != y.len() {
        assert(ascii_lowercase(a@).len() != ascii_lowercase(b@).len());
        return false;
    }
    for i in 0..x.len()
        invariant
            x@ == a@,
            y@ == b@,
            x.len() == y.len(),
            forall|j: int| 0 <= j < i ==> ascii_lower(#[trigger] x@[j]) == ascii_lower(y@[j]),
    {
        if char_to_ascii_lower(x[i]) != char_to_ascii_lower(y[i]) {
            assert(ascii_lowercase(a@)[i as int] != ascii_lowercase(b@)[i as int]);
            return false;
        }
    }
    assert(ascii_lowercase(a@) =~= ascii_lowercase(b@));
    true
}

/// The replacement that the first rule for `c` gives, or `c` itself.
pub open spec fn rule_for(c: char, rules: Seq<(char, Seq<char>)>) -> Seq<char>
    decreases rules.len(),
{
    if rules.len() == 0 {
        seq![c]
    } else if rules[0].0 == c {
        rules[0].1
    } else {
        rule_for(c, rules.drop_first())
    }
}

/// `s` with each character replaced as `rules` say.
pub open spec fn escape_with(s: Seq<char>, rules: Seq<(char, Seq<char>)>) -> Seq<char>
    decreases s.len(),
{
    if s.len() == 0 {
        Seq::empty()
    } else {
        escape_with(s.drop_last(), rules) + rule_for(s.last(), rules)
    }
}

pub open spec fn rules_model(rules: Seq<(char, &str)>) -> Seq<(char, Seq<char>)> {
    Seq::new(rules.len(), |i: int| (rules[i].0, rules[i].1@))
}

/// Append `s` to `out`, each character replaced as `rules` say.
pub fn push_escaped(out: &mut String, s: &str, rules: &[(char, &str)])
    ensures
        final(out)@ == old(out)@ + escape_with(s@, rules_model(rules@)),
{
    let ghost rm = rules_model(rules@);
    let ghost start = out@;
    let cs = chars_of(s);
    for i in 0..cs.len()
        invariant
            cs@ == s@,
            rm == rules_model(rules@),
            out@ == start + escape_with(s@.take(i as int), rm),
    {
        let c = cs[i];
        let mut j: usize = 0;
        assert(rm.skip(0) =~= rm);
        while j < rules.len()
            invariant
                j <= rules.len(),
                rm == rules_model(rules@),
                rule_for(c, rm) == rule_for(c, rm.skip(j as int)),
            ensures
                j <= rules.len(),
                rule_for(c, rm) == rule_for(c, rm.skip(j as int)),
                j < rules.len() ==> rules@[j as int].0 == c,
            decreases rules.len() - j,
        {
            if rules[j].0 == c {
                break;
            }
            assert(rm.skip(j as int).drop_first() =~= rm.skip(j + 1));
            j = j + 1;
        }
        proof {
            if j == rules.len() {
                assert(rm.skip(j as int).len() == 0);
            }
            assert(s@.take(i + 1).drop_last() =~= s@.take(i as int));
        }
        if j < rules.len() {
            out.append(rules[j].1);
        } else {
            push_char(out, c);
        }
        assert(out@ =~= start + escape_with(s@.take(i + 1), rm));
    }
    assert(s@.take(cs.len() as int) =~= s@);
}

/// `parts` joined with `sep` between neighbours.
pub open spec fn join(parts: Seq<Seq<char>>, sep: Seq<char>) -> Seq<char>
    decreases parts.len(),
{
    if parts.len() == 0 {
        Seq::empty()
    } else if parts.len() == 1 {
        parts[0]
    } else {
        join(parts.drop_last(), sep) + sep + parts.last()
    }
}

pub open spec fn strings_model(v: Seq<String>) -> Seq<Seq<char>> {
    Seq::new(v.len(), |i: int| v[i]@)
}

/// `parts.join(sep)`.
pub fn join_strings(parts: &Vec<String>, sep: &str) -> (r: String)
    ensures
        r@ == join(strings_model(parts@), sep@),
{
    let ghost pm = strings_model(parts@);
    let mut r = String::new();
    for i in 0..parts.len()
        invariant
            pm == strings_model(parts@),
            r@ == join(pm.take(i as int), sep@),
    {
        assert(pm.take(i + 1).drop_last() =~= pm.take(i as int));
        if i > 0 {
            r.append(sep);
        }
        r.append(parts[i].as_str());
    }
    assert(pm.take(parts.len() as int) =~= pm);
    r
}

/// `s` begins with `p`.
pub open spec fn starts_with(s: Seq<char>, p: Seq<char>) -> bool {
    p.len() <= s.len() && s.take(p.len() as int) == p
}

/// `str::starts_with` with a string pattern.
pub fn str_starts_with(s: &str, p: &str) -> (r: bool)
    ensures
        r == starts_with(s@, p@),
{
    let x = chars_of(s);
    let y = chars_of(p);
    if y.len() > x.len() {
        return false;
    }
    for i in 0..y.len()
        invariant
            x@ == s@,
            y@ == p@,
            y.len() <= x.len(),
            forall|j: int| 0 <= j < i ==> #[trigger] x@[j] == y@[j],
    {
        if x[i] != y[i] {
            assert(s@.take(p@.len() as int)[i as int] != p@[i as int]);
            return false;
        }
    }
    assert(s@.take(p@.len() as int) =~= p@);
    true
}

/// The index of the first `c` in `s`.
pub open spec fn find_char(s: Seq<char>, c: char) -> Option<int>
    decreases s.len(),
{
    if s.len() == 0 {
        None
    } else if s[0] == c {
        Some(0)
    } else {
        match find_char(s.drop_first(), c) {
            Some(i) => Some(i + 1),
            None => None,
        }
    }
}

pub proof fn lemma_find_char_found(s: Seq<char>, c: char, k: int)
    requires
        0 <= k < s.len(),
        s[k] == c,
        forall|j: int| 0 <= j < k ==> #[trigger] s[j] != c,
    ensures
        find_char(s, c) == Some(k),
    decreases k,
{
    if k > 0 {
        assert(s[0] != c);
        lemma_find_char_found(s.drop_first(), c, k - 1);
    }
}

pub proof fn lemma_find_char_absent(s: Seq<char>, c: char)
    requires
        forall|j: int| 0 <= j < s.len() ==> #[trigger] s[j] != c,
    ensures
        find_char(s, c) is None,
    decreases s.len(),
{
    if s.len() > 0 {
        assert(s[0] != c);
        assert forall|j: int| 0 <= j < s.drop_first().len() implies #[trigger] s.drop_first()[j]
            != c by {
            assert(s.drop_first()[j] == s[j + 1]);
        }
        lemma_find_char_absent(s.drop_first(), c);
    }
}

/// The index of the first `c` in `cs`.
pub fn find_char_in(cs: &Vec<char>, c: char) -> (r: Option<usize>)
    ensures
        match r {
            Some(i) => find_char(cs@, c) == Some(i as int),
            None => find_char(cs@, c) is None,
        },
{
    for i in 0..cs.len()
        invariant
            forall|j: int| 0 <= j < i ==> #[trigger] cs@[j] != c,
    {
        if cs[i] == c {
            proof {
                lemma_find_char_found(cs@, c, i as int);
            }
            return Some(i);
        }
    }
    proof {
        lemma_find_char_absent(cs@, c);
    }
    None
}

/// The characters `cs[from..to]` as a string.
pub fn collect_chars(cs: &Vec<char>, from: usize, to: usize) -> (r: String)
    requires
        from <= to <= cs.len(),
    ensures
        r@ == cs@.subrange(from as int, to as int),
{
    let mut r = String::new();
    for i in from..to
        invariant
            from <= to <= cs.len(),
            r@ == cs@.subrange(from as int, i as int),
    {
        push_char(&mut r, cs[i]);
        assert(r@ =~= cs@.subrange(from as int, i + 1));
    }
    r
}

/// `s` split around its first `c`.
pub open spec fn split_once(s: Seq<char>, c: char) -> Option<(Seq<char>, Seq<char>)> {
    match find_char(s, c) {
        Some(i) => Some((s.take(i), s.skip(i + 1))),
        None => None,
    }
}

/// `str::split_once` with a character pattern.
pub fn str_split_once(s: &str, c: char) -> (r: Option<(String, String)>)
    ensures
        match r {
            Some(parts) => split_once(s@, c) == Some((parts.0@, parts.1@)),
            None => split_once(s@, c) is None,
        },
{
    let cs = chars_of(s);
    match find_char_in(&cs, c) {
        Some(i) => {
            proof {
                lemma_find_char_range(cs@, c);
            }
            let a = collect_chars(&cs, 0, i);
            let b = collect_chars(&cs, i + 1, cs.len());
            assert(a@ =~= s@.take(i as int));
            assert(b@ =~= s@.skip(i + 1));
            Some((a, b))
        },
        None => None,
    }
}

pub proof fn lemma_find_char_range(s: Seq<char>, c: char)
    ensures
        find_char(s, c) matches Some(i) ==> 0 <= i < s.len() && s[i] == c,
    decreases s.len(),
{
    if s.len() > 0 && s[0] != c {
        lemma_find_char_range(s.drop_first(), c);
    }
}

/// The part of `s` before its first `c`, or all of `s`.
pub open spec fn before_char(s: Seq<char>, c: char) -> Seq<char> {
    match find_char(s, c) {
        Some(i) => s.take(i),
        None => s,
    }
}

/// `s.split(c).next()`: the part of `s` before its first `c`.
pub fn str_before_char(s: &str, c: char) -> (r: String)
    ensures
        r@ == before_char(s@, c),
{
    let cs = chars_of(s);
    match find_char_in(&cs, c) {
        Some(i) => {
            proof {
                lemma_find_char_range(cs@, c);
            }
            collect_chars(&cs, 0, i)
        },
        None => to_owned(s),
    }
}

/// `s` without its trailing run of `c`.
pub open spec fn trim_end_char(s: Seq<char>, c: char) -> Seq<char>
    decreases s.len(),
{
    if s.len() > 0 && s.last() == c {
        trim_end_char(s.drop_last(), c)
    } else {
        s
    }
}

/// `str::trim_end_matches` with a character pattern.
pub fn str_trim_end_char(s: &str, c: char) -> (r: String)
    ensures
        r@ == trim_end_char(s@, c),
{
    let cs = chars_of(s);
    let mut n = cs.len();
    assert(cs@.take(n as int) =~= cs@);
    while n > 0 && cs[n - 1] == c
        invariant
            n <= cs.len(),
            cs@ == s@,
            trim_end_char(s@, c) == trim_end_char(cs@.take(n as int), c),
        decreases n,
    {
        assert(cs@.take(n as int).drop_last() =~= cs@.take(n - 1));
        n = n - 1;
    }
    let r = collect_chars(&cs, 0, n);
    assert(r@ =~= cs@.take(n as int));
    r
}

} // verus!
