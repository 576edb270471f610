//! Matching of dependency names.
//!
//! A dependency may be declared as `foo-bar` and resolved as `foo_bar`, and
//! registries historically accepted either spelling in any letter case. Two
//! names match when they are equal once every character is folded.

use vstd::prelude::*;
use vstd::std_specs::iter::IteratorSpec;

verus! {

/// The representative of a character for name matching: ASCII capitals are
/// lowered and `-` becomes `_`; every other character stands for itself.
pub open spec fn fold_char(c: char) -> char {
    if 'A' <= c && c <= 'Z' {
        ((c as u8) + 32) as char
    } else if c == '-' {
        '_'
    } else {
        c
    }
}

/// Two names match when they have the same length and agree character by
/// character after folding.
pub open spec fn names_match(a: Seq<char>, b: Seq<char>) -> bool {
    &&& a.len() == b.len()
    &&& forall|i: int| 0 <= i < a.len() ==> fold_char(#[trigger] a[i]) == fold_char(b[i])
}

/// Folds one character.
pub fn fold(c: char) -> (r: char)
    ensures
        r == fold_char(c),
{
    if 'A' <= c && c <= 'Z' {
        let b: u8 = c as u8;
        (b + 32) as char
    } else if c == '-' {
        '_'
    } else {
        c
    }
}

/// Whether two strings hold the same characters.
pub fn str_eq(a: &str, b: &str) -> (r: bool)
    ensures
        r == (a@ == b@),
{
    let mut x = a.chars();
    let mut y = b.chars();
    let ghost mut k: int = 0;
    loop
        invariant
            0 <= k <= a@.len(),
            k <= b@.len(),
            a@.subrange(0, k) == b@.subrange(0, k),
            x.remaining() == a@.subrange(k, a@.len() as int),
            y.remaining() == b@.subrange(k, b@.len() as int),
        decreases a@.len() - k,
    {
        let p = x.next();
        let q = y.next();
        match (p, q) {
            (Some(c), Some(d)) => {
                if c != d {
                    assert(a@[k] != b@[k]);
                    return false;
                }
                proof {
                    assert(a@.subrange(0, k + 1) =~= a@.subrange(0, k).push(a@[k]));
                    assert(b@.subrange(0, k + 1) =~= b@.subrange(0, k).push(b@[k]));
                    k = k + 1;
                }
            },
            (None, None) => {
                assert(a@ =~= a@.subrange(0, k));
                assert(b@ =~= b@.subrange(0, k));
                return true;
            },
            _ => {
                return false;
            },
        }
    }
}

/// Whether two names match, walking both in step.
fn same_name(a: &str, b: &str) -> (r: bool)
    ensures
        r == names_match(a@, b@),
{
    let mut x = a.chars();
    let mut y = b.chars();
    let ghost mut k: int = 0;
    loop
        invariant
            0 <= k <= a@.len(),
            k <= b@.len(),
            forall|i: int| 0 <= i < k ==> fold_char(#[trigger] a@[i]) == fold_char(b@[i]),
            x.remaining() == a@.subrange(k, a@.len() as int),
            y.remaining() == b@.subrange(k, b@.len() as int),
        decreases a@.len() - k,
    {
        let p = x.next();
        let q = y.next();
        match (p, q) {
            (Some(c), Some(d)) => {
                if fold(c) != fold(d) {
                    assert(fold_char(a@[k]) != fold_char(b@[k]));
                    return false;
                }
                proof {
                    k = k + 1;
                }
            },
            (None, None) => {
                return true;
            },
            _ => {
                return false;
            },
        }
    }
}

/// Whether two dependency names match: letter case is ignored for ASCII
/// letters, and `-` and `_` are the same character.
pub fn name_cmp(a: &str, b: &str) -> (r: bool)
    ensures
        r == names_match(a@, b@),
{
    same_name(a, b)
}

/// Two characters that are one ASCII letter, once as a capital and once small.
pub open spec fn case_variants(c: char, d: char) -> bool {
    ||| ('A' <= c && c <= 'Z' && d as int == c as int + 32)
    ||| ('A' <= d && d <= 'Z' && c as int == d as int + 32)
}

/// Two characters that are the two separators, `-` and `_`.
pub open spec fn separator_variants(c: char, d: char) -> bool {
    (c == '-' && d == '_') || (c == '_' && d == '-')
}

/// Names that differ only in the case of ASCII letters, or in `-` against `_`,
/// match.
pub proof fn lemma_variants_match(a: Seq<char>, b: Seq<char>)
    requires
        a.len() == b.len(),
        forall|i: int|
            0 <= i < a.len() ==> {
                ||| #[trigger] a[i] == b[i]
                ||| case_variants(a[i], b[i])
                ||| separator_variants(a[i], b[i])
            },
    ensures
        names_match(a, b),
{
    assert forall|i: int| 0 <= i < a.len() implies fold_char(#[trigger] a[i]) == fold_char(
        b[i],
    ) by {
        assert(a[i] == b[i] || case_variants(a[i], b[i]) || separator_variants(a[i], b[i]));
    }
}

/// Matching is reflexive, symmetric and transitive.
pub proof fn lemma_match_is_equivalence(a: Seq<char>, b: Seq<char>, c: Seq<char>)
    ensures
        names_match(a, a),
        names_match(a, b) ==> names_match(b, a),
        names_match(a, b) && names_match(b, c) ==> names_match(a, c),
{
    if names_match(a, b) {
        assert forall|i: int| 0 <= i < b.len() implies fold_char(#[trigger] b[i]) == fold_char(
            a[i],
        ) by {
            assert(fold_char(a[i]) == fold_char(b[i]));
        }
        if names_match(b, c) {
            assert forall|i: int| 0 <= i < a.len() implies fold_char(#[trigger] a[i])
                == fold_char(c[i]) by {
                assert(fold_char(b[i]) == fold_char(c[i]));
            }
        }
    }
}

} // verus!
