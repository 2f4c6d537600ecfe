//! Counting the characters of a text that belong to an alphabet of symbols.

use vstd::prelude::*;
use std::collections::BTreeMap;
use crate::counting::{lemma_occurrences_bounded, lemma_occurrences_push, occurrences};
use crate::text::{char_len_bound, lemma_code_points_differ};

verus! {

broadcast use vstd::std_specs::btree::group_btree_axioms, vstd::laws_cmp::group_laws_cmp;

/// The punctuation and operator characters that are counted by default.
pub const SYMBOLS: [char; 27] = [
    '{', '}', '(', ')', '<', '>', ';', '.', ',', '&', '[', ']', ':', '?', '*', '=', '!', '/', '\\',
    '$', '-', '+', '|', '`', '_', '~', '%',
];

/// The count that a map from code points to counts gives for a character:
/// zero for a character that is no key of the map.
pub open spec fn count_in(map: Map<u32, usize>, c: char) -> nat {
    if map.contains_key(c as u32) {
        map[c as u32] as nat
    } else {
        0
    }
}

/// `map` counts the characters of `chars`: it gives every character the
/// number of times that the character stands in `chars`.
pub open spec fn is_char_map_of(map: Map<u32, usize>, chars: Seq<char>) -> bool {
    forall|c: char| #[trigger] count_in(map, c) == occurrences(chars, c)
}

/// Counts every character of `text`, in a map keyed by code point.
pub fn char_map(text: &str) -> (map: BTreeMap<u32, usize>)
    ensures
        is_char_map_of(map@, text@),
{
    let bound: usize = char_len_bound(text);
    let mut map: BTreeMap<u32, usize> = BTreeMap::new();
    proof {
        assert(text@.take(0) =~= Seq::<char>::empty());
    }
    for c in it: text.chars()
        invariant
            it.seq() == text@,
            text@.len() <= bound,
            is_char_map_of(map@, text@.take(it.index())),
    {
        let ghost seen = text@.take(it.index());
        let ghost before = map@;
        let key: u32 = c as u32;
        let count: usize = match map.get(&key) {
            Some(n) => *n,
            None => 0,
        };
        proof {
            assert(count == count_in(before, c));
            lemma_occurrences_bounded(seen, c);
            assert(text@.take(it.index() + 1) =~= seen.push(c));
        }
        map.insert(key, count + 1);
        proof {
            assert forall|d: char| #[trigger] count_in(map@, d) == occurrences(seen.push(c), d) by {
                lemma_occurrences_push(seen, c, d);
                assert(count_in(before, d) == occurrences(seen, d));
                if d != c {
                    lemma_code_points_differ(d, c);
                }
            }
        }
    }
    proof {
        assert(text@.take(text@.len() as int) =~= text@);
    }
    map
}

/// Counts, for each symbol of `symbols`, the characters of `text` that are
/// that symbol. Column `j` of the result belongs to `symbols[j]`.
pub fn char_counts(text: &str, symbols: &[char]) -> (counts: Vec<usize>)
    ensures
        counts@.len() == symbols@.len(),
        forall|j: int|
            0 <= j < symbols@.len() ==> #[trigger] counts@[j] == occurrences(text@, symbols@[j]),
{
    let map = char_map(text);
    let mut counts: Vec<usize> = Vec::with_capacity(symbols.len());
    let mut j: usize = 0;
    while j < symbols.len()
        invariant
            j <= symbols@.len(),
            counts@.len() == j,
            is_char_map_of(map@, text@),
            forall|k: int|
                0 <= k < j ==> #[trigger] counts@[k] == occurrences(text@, symbols@[k]),
        decreases symbols@.len() - j,
    {
        let key: u32 = symbols[j] as u32;
        let symbol_count: usize = match map.get(&key) {
            Some(n) => *n,
            None => 0,
        };
        proof {
            assert(symbol_count == count_in(map@, symbols@[j as int]));
        }
        counts.push(symbol_count);
        j = j + 1;
    }
    counts
}

} // verus!
