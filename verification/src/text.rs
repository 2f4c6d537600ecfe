//! Strings as sequences of characters: equality and order of string slices,
//! and the bound that a string's bytes put on the number of its characters.

use vstd::prelude::*;
use vstd::string::StringSliceAdditionalSpecFns;
use vstd::std_specs::iter::IteratorSpec;
use vstd::utf8::{char_u32_cast, encode_utf8, encode_utf8_decode_utf8};
use std::cmp::Ordering;

verus! {

/// The order of strings: the first place at which two strings differ decides,
/// by the code points there, and a string comes before the strings that
/// extend it.
pub open spec fn lex_le(a: Seq<char>, b: Seq<char>) -> bool
    decreases a.len(),
{
    if a.len() == 0 {
        true
    } else if b.len() == 0 {
        false
    } else if a[0] != b[0] {
        (a[0] as u32) < (b[0] as u32)
    } else {
        lex_le(a.drop_first(), b.drop_first())
    }
}

/// Two characters that differ have code points that differ.
pub proof fn lemma_code_points_differ(a: char, b: char)
    requires
        a != b,
    ensures
        (a as u32) != (b as u32),
{
    char_u32_cast(a, a as u32);
    char_u32_cast(b, b as u32);
}

/// Every string comes no later than itself.
pub proof fn lemma_lex_le_reflexive(a: Seq<char>)
    ensures
        lex_le(a, a),
    decreases a.len(),
{
    if a.len() > 0 {
        lemma_lex_le_reflexive(a.drop_first());
    }
}

/// Of two strings, one comes no later than the other.
pub proof fn lemma_lex_le_total(a: Seq<char>, b: Seq<char>)
    ensures
        lex_le(a, b) || lex_le(b, a),
    decreases a.len(),
{
    if a.len() > 0 && b.len() > 0 {
        if a[0] == b[0] {
            lemma_lex_le_total(a.drop_first(), b.drop_first());
        } else {
            lemma_code_points_differ(a[0], b[0]);
        }
    }
}

/// A string that comes no later than a second, which comes no later than a
/// third, comes no later than the third.
pub proof fn lemma_lex_le_transitive(a: Seq<char>, b: Seq<char>, c: Seq<char>)
    requires
        lex_le(a, b),
        lex_le(b, c),
    ensures
        lex_le(a, c),
    decreases a.len(),
{
    if a.len() > 0 && b.len() > 0 && c.len() > 0 && a[0] == b[0] && b[0] == c[0] {
        lemma_lex_le_transitive(a.drop_first(), b.drop_first(), c.drop_first());
    }
}

/// Two strings that each come no later than the other are the same string.
pub proof fn lemma_lex_le_antisymmetric(a: Seq<char>, b: Seq<char>)
    requires
        lex_le(a, b),
        lex_le(b, a),
    ensures
        a == b,
    decreases a.len(),
{
    if a.len() == 0 || b.len() == 0 {
        assert(a =~= b);
    } else {
        lemma_lex_le_antisymmetric(a.drop_first(), b.drop_first());
        assert(a =~= seq![a[0]] + a.drop_first());
        assert(b =~= seq![b[0]] + b.drop_first());
    }
}

/// Two strings that agree on their first `n` places are in the order of what
/// follows those places.
pub proof fn lemma_lex_le_common_prefix(a: Seq<char>, b: Seq<char>, n: int)
    requires
        0 <= n <= a.len(),
        n <= b.len(),
        a.take(n) == b.take(n),
    ensures
        lex_le(a, b) == lex_le(a.skip(n), b.skip(n)),
    decreases n,
{
    if n == 0 {
        assert(a.skip(0) =~= a);
        assert(b.skip(0) =~= b);
    } else {
        assert(a[0] == a.take(n)[0]);
        assert(b[0] == b.take(n)[0]);
        assert(a.drop_first().take(n - 1) =~= a.take(n).drop_first());
        assert(b.drop_first().take(n - 1) =~= b.take(n).drop_first());
        lemma_lex_le_common_prefix(a.drop_first(), b.drop_first(), n - 1);
        assert(a.drop_first().skip(n - 1) =~= a.skip(n));
        assert(b.drop_first().skip(n - 1) =~= b.skip(n));
    }
}

/// Whether two string slices hold the same characters in the same order,
/// found by comparing their bytes: two strings are the same exactly when
/// their UTF-8 encodings are.
pub fn str_eq(a: &str, b: &str) -> (same: bool)
    ensures
        same == (a@ == b@),
{
    let x = a.as_bytes();
    let y = b.as_bytes();
    proof {
        encode_utf8_decode_utf8(a@);
        encode_utf8_decode_utf8(b@);
    }
    if x.len() != y.len() {
        return false;
    }
    let mut i: usize = 0;
    while i < x.len()
        invariant
            i <= x@.len(),
            x@.len() == y@.len(),
            x@ == encode_utf8(a@),
            y@ == encode_utf8(b@),
            forall|k: int| 0 <= k < i ==> x@[k] == y@[k],
        decreases x@.len() - i,
    {
        if x[i] != y[i] {
            return false;
        }
        i = i + 1;
    }
    proof {
        assert(x@ =~= y@);
    }
    true
}

/// Whether the code point of `a` comes before that of `b`.
fn char_lt(a: char, b: char) -> (before: bool)
    ensures
        before == ((a as u32) < (b as u32)),
{
    (a as u32) < (b as u32)
}

/// Orders two string slices: the first place at which the two differ
/// decides, by the code points there, and a string comes before the strings
/// that extend it.
pub fn str_order(a: &str, b: &str) -> (order: Ordering)
    ensures
        match order {
            Ordering::Less => lex_le(a@, b@) && a@ != b@,
            Ordering::Equal => a@ == b@,
            Ordering::Greater => lex_le(b@, a@) && a@ != b@,
        },
{
    let mut rest = b.chars();
    let ghost mut n: int = 0;
    for c in it: a.chars()
        invariant
            it.seq() == a@,
            n == it.index(),
            n <= b@.len(),
            rest.remaining() == b@.skip(n),
            a@.take(n) == b@.take(n),
    {
        match rest.next() {
            None => {
                proof {
                    assert(b@.skip(n).len() == 0);
                    lemma_lex_le_common_prefix(b@, a@, n);
                }
                return Ordering::Greater;
            },
            Some(d) => {
                proof {
                    assert(d == b@.skip(n)[0]);
                    assert(c == a@.skip(n)[0]);
                    lemma_lex_le_common_prefix(a@, b@, n);
                    lemma_lex_le_common_prefix(b@, a@, n);
                }
                if c != d {
                    proof {
                        lemma_code_points_differ(c, d);
                    }
                    if char_lt(c, d) {
                        return Ordering::Less;
                    } else {
                        return Ordering::Greater;
                    }
                }
                proof {
                    assert(a@.take(n + 1) =~= a@.take(n).push(c));
                    assert(b@.take(n + 1) =~= b@.take(n).push(d));
                    assert(b@.skip(n).drop_first() =~= b@.skip(n + 1));
                    n = n + 1;
                }
            },
        }
    }
    proof {
        assert(a@.take(n) =~= a@);
        lemma_lex_le_common_prefix(a@, b@, n);
    }
    match rest.next() {
        None => {
            proof {
                assert(b@.take(n) =~= b@);
            }
            Ordering::Equal
        },
        Some(_) => Ordering::Less,
    }
}

/// Every character takes at least one byte of its UTF-8 encoding.
pub proof fn lemma_chars_within_bytes(chars: Seq<char>)
    ensures
        chars.len() <= encode_utf8(chars).len(),
    decreases chars.len(),
{
    if chars.len() > 0 {
        lemma_chars_within_bytes(chars.drop_first());
    }
}

/// The number of bytes of a string, which bounds the number of its
/// characters by a machine word.
pub fn char_len_bound(s: &str) -> (bound: usize)
    ensures
        bound == s.spec_bytes().len(),
        s@.len() <= bound,
{
    proof {
        lemma_chars_within_bytes(s@);
    }
    s.as_bytes().len()
}

/// Borrows each string of a list as a string slice.
pub fn borrow_words<'a>(words: &'a [String]) -> (borrowed: Vec<&'a str>)
    ensures
        borrowed.deep_view() == words.deep_view(),
{
    let mut borrowed: Vec<&'a str> = Vec::with_capacity(words.len());
    let mut i: usize = 0;
    while i < words.len()
        invariant
            i <= words@.len(),
            borrowed@.len() == i,
            forall|k: int| 0 <= k < i ==> (#[trigger] borrowed@[k])@ == words@[k]@,
        decreases words@.len() - i,
    {
        borrowed.push(words[i].as_str());
        i = i + 1;
    }
    proof {
        assert(borrowed.deep_view() =~= words.deep_view());
    }
    borrowed
}

} // verus!
