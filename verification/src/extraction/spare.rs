//! UUID texts kept in reserve: when a fresh random draw repeats one that is
//! already in use, a text of this family that is still free takes its
//! place, so that the identifiers handed out never collide.

use vstd::prelude::*;

use crate::extraction::baml::{is_lower_hex, is_uuid_v4_text};
use crate::text::{push_char, str_eq, strings_model};

verus! {

/// The lower-case hexadecimal digit of `d` (taken in `0..16`).
pub open spec fn hex_char(d: int) -> char {
    if d == 0 {
        '0'
    } else if d == 1 {
        '1'
    } else if d == 2 {
        '2'
    } else if d == 3 {
        '3'
    } else if d == 4 {
        '4'
    } else if d == 5 {
        '5'
    } else if d == 6 {
        '6'
    } else if d == 7 {
        '7'
    } else if d == 8 {
        '8'
    } else if d == 9 {
        '9'
    } else if d == 10 {
        'a'
    } else if d == 11 {
        'b'
    } else if d == 12 {
        'c'
    } else if d == 13 {
        'd'
    } else if d == 14 {
        'e'
    } else {
        'f'
    }
}

/// The last `k` hexadecimal digits of `c`, most significant first.
pub open spec fn hex_digits(c: nat, k: nat) -> Seq<char>
    decreases k,
{
    if k == 0 {
        Seq::empty()
    } else {
        hex_digits(c / 16, (k - 1) as nat).push(hex_char((c % 16) as int))
    }
}

/// `16` to the power `k`.
pub open spec fn hex_cap(k: nat) -> nat
    decreases k,
{
    if k == 0 {
        1
    } else {
        16 * hex_cap((k - 1) as nat)
    }
}

/// The `c`-th reserve UUID: the high digits of `c` in the first group, its
/// low 48 bits in the last one.
pub open spec fn spare_uuid(c: nat) -> Seq<char> {
    hex_digits(c / 0x1_0000_0000_0000, 8) + "-0000-4000-8000-"@ + hex_digits(c % 0x1_0000_0000_0000, 12)
}

proof fn lemma_hex_digits(c: nat, k: nat)
    ensures
        hex_digits(c, k).len() == k,
        forall|i: int| 0 <= i < k ==> is_lower_hex(#[trigger] hex_digits(c, k)[i]),
    decreases k,
{
    if k > 0 {
        lemma_hex_digits(c / 16, (k - 1) as nat);
        let front = hex_digits(c / 16, (k - 1) as nat);
        assert forall|i: int| 0 <= i < k implies is_lower_hex(#[trigger] hex_digits(c, k)[i]) by {
            if i < k - 1 {
                assert(hex_digits(c, k)[i] == front[i]);
            }
        }
    }
}

proof fn lemma_hex_injective(c1: nat, c2: nat, k: nat)
    requires
        c1 < hex_cap(k),
        c2 < hex_cap(k),
        hex_digits(c1, k) == hex_digits(c2, k),
    ensures
        c1 == c2,
    decreases k,
{
    if k > 0 {
        let m = hex_cap((k - 1) as nat);
        let d1 = hex_digits(c1, k);
        let d2 = hex_digits(c2, k);
        assert(d1.last() == d2.last());
        assert(c1 % 16 == c2 % 16);
        assert(d1.drop_last() == hex_digits(c1 / 16, (k - 1) as nat));
        assert(d2.drop_last() == hex_digits(c2 / 16, (k - 1) as nat));
        assert(c1 / 16 < m) by (nonlinear_arith)
            requires
                c1 < 16 * m,
        ;
        assert(c2 / 16 < m) by (nonlinear_arith)
            requires
                c2 < 16 * m,
        ;
        lemma_hex_injective(c1 / 16, c2 / 16, (k - 1) as nat);
        vstd::arithmetic::div_mod::lemma_fundamental_div_mod(c1 as int, 16);
        vstd::arithmetic::div_mod::lemma_fundamental_div_mod(c2 as int, 16);
    }
}

/// Every reserve UUID has the form of a version 4 UUID.
pub proof fn lemma_spare_is_uuid(c: nat)
    ensures
        is_uuid_v4_text(spare_uuid(c)),
{
    reveal_strlit("-0000-4000-8000-");
    let a = hex_digits(c / 0x1_0000_0000_0000, 8);
    let b = hex_digits(c % 0x1_0000_0000_0000, 12);
    let mid = "-0000-4000-8000-"@;
    lemma_hex_digits(c / 0x1_0000_0000_0000, 8);
    lemma_hex_digits(c % 0x1_0000_0000_0000, 12);
    let s = spare_uuid(c);
    assert(s.len() == 36);
    assert forall|i: int|
        0 <= i < 36 implies if i == 8 || i == 13 || i == 18 || i == 23 {
        #[trigger] s[i] == '-'
    } else {
        is_lower_hex(s[i])
    } by {
        if i < 8 {
            assert(s[i] == a[i]);
        } else if i < 24 {
            assert(s[i] == mid[i - 8]);
        } else {
            assert(s[i] == b[i - 24]);
        }
    }
    assert(s[14] == mid[6]);
    assert(s[19] == mid[11]);
}

/// Distinct numbers below `2^64` give distinct reserve UUIDs.
proof fn lemma_spare_injective(c1: nat, c2: nat)
    requires
        c1 < 0x1_0000_0000_0000_0000,
        c2 < 0x1_0000_0000_0000_0000,
        spare_uuid(c1) == spare_uuid(c2),
    ensures
        c1 == c2,
{
    reveal_strlit("-0000-4000-8000-");
    let k: nat = 0x1_0000_0000_0000;
    lemma_hex_digits(c1 / k, 8);
    lemma_hex_digits(c2 / k, 8);
    lemma_hex_digits(c1 % k, 12);
    lemma_hex_digits(c2 % k, 12);
    let s1 = spare_uuid(c1);
    let s2 = spare_uuid(c2);
    assert(s1.take(8) =~= hex_digits(c1 / k, 8));
    assert(s2.take(8) =~= hex_digits(c2 / k, 8));
    assert(s1.skip(24) =~= hex_digits(c1 % k, 12));
    assert(s2.skip(24) =~= hex_digits(c2 % k, 12));
    reveal_with_fuel(hex_cap, 13);
    assert(hex_cap(8) == 0x1_0000_0000);
    assert(hex_cap(12) == 0x1_0000_0000_0000);
    assert(c1 / k < 0x1_0000_0000) by (nonlinear_arith)
        requires
            c1 < 0x1_0000_0000_0000_0000,
            k == 0x1_0000_0000_0000,
    ;
    assert(c2 / k < 0x1_0000_0000) by (nonlinear_arith)
        requires
            c2 < 0x1_0000_0000_0000_0000,
            k == 0x1_0000_0000_0000,
    ;
    lemma_hex_injective(c1 / k, c2 / k, 8);
    lemma_hex_injective(c1 % k, c2 % k, 12);
    vstd::arithmetic::div_mod::lemma_fundamental_div_mod(c1 as int, k as int);
    vstd::arithmetic::div_mod::lemma_fundamental_div_mod(c2 as int, k as int);
}

/// Of the first `n + 1` reserve UUIDs, some one is not among `n` texts.
proof fn lemma_some_spare_free(taken: Seq<Seq<char>>)
    requires
        taken.len() < 0x1_0000_0000_0000_0000,
    ensures
        exists|j: int| 0 <= j <= taken.len() && !taken.contains(#[trigger] spare_uuid(j as nat)),
{
    let n = taken.len();
    if forall|j: int| 0 <= j <= n ==> taken.contains(#[trigger] spare_uuid(j as nat)) {
        let cands = Seq::new(n + 1, |j: int| spare_uuid(j as nat));
        assert forall|i: int, j: int| 0 <= i < cands.len() && 0 <= j < cands.len() && i != j implies cands[i]
            != cands[j] by {
            if cands[i] == cands[j] {
                lemma_spare_injective(i as nat, j as nat);
            }
        }
        assert(cands.no_duplicates());
        cands.unique_seq_to_set();
        taken.lemma_cardinality_of_set();
        assert forall|x: Seq<char>| cands.to_set().contains(x) implies taken.to_set().contains(x) by {
            let j = choose|j: int| 0 <= j < cands.len() && cands[j] == x;
            assert(taken.contains(spare_uuid(j as nat)));
        }
        vstd::seq_lib::seq_to_set_is_finite(taken);
        vstd::set_lib::lemma_len_subset(cands.to_set(), taken.to_set());
    }
}

fn hex_char_of(d: u64) -> (r: char)
    requires
        d < 16,
    ensures
        r == hex_char(d as int),
{
    if d == 0 {
        '0'
    } else if d == 1 {
        '1'
    } else if d == 2 {
        '2'
    } else if d == 3 {
        '3'
    } else if d == 4 {
        '4'
    } else if d == 5 {
        '5'
    } else if d == 6 {
        '6'
    } else if d == 7 {
        '7'
    } else if d == 8 {
        '8'
    } else if d == 9 {
        '9'
    } else if d == 10 {
        'a'
    } else if d == 11 {
        'b'
    } else if d == 12 {
        'c'
    } else if d == 13 {
        'd'
    } else if d == 14 {
        'e'
    } else {
        'f'
    }
}

fn hex_text(c: u64, k: u64) -> (r: String)
    ensures
        r@ == hex_digits(c as nat, k as nat),
    decreases k,
{
    if k == 0 {
        String::new()
    } else {
        let mut s = hex_text(c / 16, k - 1);
        push_char(&mut s, hex_char_of(c % 16));
        s
    }
}

/// The `c`-th reserve UUID.
pub fn spare_uuid_text(c: u64) -> (r: String)
    ensures
        r@ == spare_uuid(c as nat),
{
    let mut s = hex_text(c / 0x1_0000_0000_0000, 8);
    s.append("-0000-4000-8000-");
    let t = hex_text(c % 0x1_0000_0000_0000, 12);
    s.append(t.as_str());
    s
}

/// Whether `v` holds the text `s`.
pub fn holds_text(v: &Vec<String>, s: &str) -> (r: bool)
    ensures
        r == strings_model(v@).contains(s@),
{
    for i in 0..v.len()
        invariant
            forall|j: int| 0 <= j < i ==> strings_model(v@)[j] != s@,
    {
        if str_eq(v[i].as_str(), s) {
            assert(strings_model(v@)[i as int] == s@);
            return true;
        }
    }
    false
}

/// The first reserve UUID that `taken` does not hold.
pub fn unused_uuid(taken: &Vec<String>) -> (r: String)
    ensures
        is_uuid_v4_text(r@),
        !strings_model(taken@).contains(r@),
{
    let n = taken.len();
    let mut c: usize = 0;
    while c < n
        invariant
            c <= n,
            n == taken.len(),
            forall|j: int| 0 <= j < c ==> strings_model(taken@).contains(#[trigger] spare_uuid(j as nat)),
        decreases n - c,
    {
        let cand = spare_uuid_text(c as u64);
        if !holds_text(taken, cand.as_str()) {
            proof {
                lemma_spare_is_uuid(c as nat);
            }
            return cand;
        }
        c = c + 1;
    }
    let cand = spare_uuid_text(n as u64);
    proof {
        lemma_spare_is_uuid(n as nat);
    }
    proof {
        lemma_some_spare_free(strings_model(taken@));
    }
    assert(!strings_model(taken@).contains(cand@));
    cand
}

} // verus!
