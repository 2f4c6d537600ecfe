//! Counting in sequences: how often a value occurs, and the distinct values
//! of a sequence in the order in which they first appear.

use vstd::prelude::*;

verus! {

/// The number of positions of `s` that hold `x`.
pub open spec fn occurrences<T>(s: Seq<T>, x: T) -> nat
    decreases s.len(),
{
    if s.len() == 0 {
        0
    } else {
        occurrences(s.drop_last(), x) + if s.last() == x { 1nat } else { 0nat }
    }
}

/// The values of `s` without repetition, each at the place of its first
/// appearance.
pub open spec fn distinct<T>(s: Seq<T>) -> Seq<T>
    decreases s.len(),
{
    if s.len() == 0 {
        Seq::empty()
    } else {
        let before = distinct(s.drop_last());
        if before.contains(s.last()) {
            before
        } else {
            before.push(s.last())
        }
    }
}

/// A value cannot occur more often than the sequence is long.
pub proof fn lemma_occurrences_bounded<T>(s: Seq<T>, x: T)
    ensures
        occurrences(s, x) <= s.len(),
    decreases s.len(),
{
    if s.len() > 0 {
        lemma_occurrences_bounded(s.drop_last(), x);
    }
}

/// Appending one value raises the count of that value by one and leaves the
/// other counts as they were.
pub proof fn lemma_occurrences_push<T>(s: Seq<T>, y: T, x: T)
    ensures
        occurrences(s.push(y), x) == occurrences(s, x) + if y == x { 1nat } else { 0nat },
{
    assert(s.push(y).drop_last() =~= s);
}

/// A value is counted zero times exactly when the sequence does not hold it.
pub proof fn lemma_occurrences_zero<T>(s: Seq<T>, x: T)
    ensures
        occurrences(s, x) == 0 <==> !s.contains(x),
    decreases s.len(),
{
    if s.len() > 0 {
        let front = s.drop_last();
        lemma_occurrences_zero(front, x);
        if s.contains(x) {
            let i = choose|i: int| 0 <= i < s.len() && s[i] == x;
            if i < s.len() - 1 {
                assert(front[i] == x);
            }
        }
        if front.contains(x) {
            let i = choose|i: int| 0 <= i < front.len() && front[i] == x;
            assert(s[i] == x);
        }
    }
}

/// The distinct values of a sequence are the values of the sequence.
pub proof fn lemma_distinct_contains<T>(s: Seq<T>, x: T)
    ensures
        distinct(s).contains(x) <==> s.contains(x),
    decreases s.len(),
{
    if s.len() > 0 {
        let front = s.drop_last();
        let before = distinct(front);
        lemma_distinct_contains(front, x);
        if s.contains(x) {
            let i = choose|i: int| 0 <= i < s.len() && s[i] == x;
            if i < s.len() - 1 {
                assert(front[i] == x);
            }
        }
        if front.contains(x) {
            let i = choose|i: int| 0 <= i < front.len() && front[i] == x;
            assert(s[i] == x);
        }
        if !before.contains(s.last()) {
            let after = before.push(s.last());
            assert(after[after.len() - 1] == s.last());
            if before.contains(x) {
                let i = choose|i: int| 0 <= i < before.len() && before[i] == x;
                assert(after[i] == x);
            }
        }
        assert(s[s.len() - 1] == s.last());
    }
}

/// No value stands twice among the distinct values of a sequence.
pub proof fn lemma_distinct_no_duplicates<T>(s: Seq<T>)
    ensures
        distinct(s).no_duplicates(),
    decreases s.len(),
{
    if s.len() > 0 {
        lemma_distinct_no_duplicates(s.drop_last());
    }
}

/// The distinct values of a prefix open the distinct values of the whole.
pub proof fn lemma_distinct_prefix<T>(s: Seq<T>, n: int)
    requires
        0 <= n <= s.len(),
    ensures
        distinct(s.take(n)).is_prefix_of(distinct(s)),
    decreases s.len() - n,
{
    if n == s.len() {
        assert(s.take(n) =~= s);
    } else {
        lemma_distinct_prefix(s, n + 1);
        assert(s.take(n + 1).drop_last() =~= s.take(n));
    }
}

/// The count of a value in two sequences joined is the sum of its counts in
/// the two.
pub proof fn lemma_occurrences_concat<T>(a: Seq<T>, b: Seq<T>, x: T)
    ensures
        occurrences(a + b, x) == occurrences(a, x) + occurrences(b, x),
    decreases b.len(),
{
    if b.len() == 0 {
        assert(a + b =~= a);
    } else {
        lemma_occurrences_concat(a, b.drop_last(), x);
        assert((a + b).drop_last() =~= a + b.drop_last());
    }
}

/// Among the distinct values of a sequence, a value of the sequence is
/// counted once and any other value not at all.
pub proof fn lemma_occurrences_in_distinct<T>(s: Seq<T>, x: T)
    ensures
        occurrences(distinct(s), x) == if s.contains(x) { 1nat } else { 0nat },
    decreases s.len(),
{
    lemma_distinct_contains(s, x);
    if s.len() > 0 {
        let front = s.drop_last();
        let before = distinct(front);
        lemma_occurrences_in_distinct(front, x);
        lemma_distinct_contains(front, x);
        lemma_distinct_contains(front, s.last());
        if !before.contains(s.last()) {
            lemma_occurrences_push(before, s.last(), x);
        }
        if s.last() == x {
            assert(s[s.len() - 1] == x);
        }
    } else {
        lemma_occurrences_zero(distinct(s), x);
    }
}

/// What follows a sequence adds to its distinct values in a way that only
/// those distinct values decide.
pub proof fn lemma_distinct_concat_same<T>(a: Seq<T>, c: Seq<T>, b: Seq<T>)
    requires
        distinct(a) == distinct(c),
    ensures
        distinct(a + b) == distinct(c + b),
    decreases b.len(),
{
    if b.len() == 0 {
        assert(a + b =~= a);
        assert(c + b =~= c);
    } else {
        lemma_distinct_concat_same(a, c, b.drop_last());
        assert((a + b).drop_last() =~= a + b.drop_last());
        assert((c + b).drop_last() =~= c + b.drop_last());
    }
}

/// The repeats within what follows a sequence do not change the distinct
/// values of the whole.
pub proof fn lemma_distinct_concat<T>(a: Seq<T>, b: Seq<T>)
    ensures
        distinct(a + b) == distinct(a + distinct(b)),
    decreases b.len(),
{
    if b.len() == 0 {
        assert(distinct(b) =~= b);
    } else {
        let front = b.drop_last();
        let y = b.last();
        lemma_distinct_concat(a, front);
        lemma_distinct_contains(front, y);
        lemma_distinct_contains(a + front, y);
        assert((a + b).drop_last() =~= a + front);
        if front.contains(y) {
            let k = choose|k: int| 0 <= k < front.len() && front[k] == y;
            assert((a + front)[a.len() + k] == y);
        } else {
            let shorter = a + distinct(front);
            assert(a + distinct(b) =~= shorter.push(y));
            assert(shorter.push(y).drop_last() =~= shorter);
        }
    }
}

} // verus!
