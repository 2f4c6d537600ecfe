//! Raw posts, and the removal of posts that repeat the key of another post.

use vstd::prelude::*;
use vstd::seq_lib::to_multiset_contains;
use std::cmp::Ordering;
use dedup_by::dedup_by;
use crate::text::{lemma_lex_le_antisymmetric, lex_le, str_eq, str_order};

verus! {

/// One post as it was read: the fields that the extractors consume.
#[derive(Clone, Debug, PartialEq, Eq)]
pub struct RawPostFeatures {
    pub is_self: bool,
    pub author: String,
    pub selftext: String,
    pub subreddit: String,
    pub title: String,
}

/// A text field of a post, chosen as the key by which posts are told apart.
#[derive(Clone, Copy, Debug, PartialEq, Eq)]
pub enum PostKey {
    Title,
    Author,
    Subreddit,
    Selftext,
}

/// The key of a post: the characters of the chosen field.
pub open spec fn key_text(post: RawPostFeatures, key: PostKey) -> Seq<char> {
    match key {
        PostKey::Title => post.title@,
        PostKey::Author => post.author@,
        PostKey::Subreddit => post.subreddit@,
        PostKey::Selftext => post.selftext@,
    }
}

/// The keys of the posts of `s`, in its order.
pub open spec fn keys(s: Seq<RawPostFeatures>, key: PostKey) -> Seq<Seq<char>> {
    Seq::new(s.len(), |i: int| key_text(s[i], key))
}

/// The keys of `s` never descend.
pub open spec fn sorted_by_key(s: Seq<RawPostFeatures>, key: PostKey) -> bool {
    forall|i: int, j: int|
        0 <= i < j < s.len() ==> lex_le(#[trigger] key_text(s[i], key), #[trigger] key_text(s[j], key))
}

/// The keys of `s` ascend, so that no key stands twice.
pub open spec fn strictly_sorted_by_key(s: Seq<RawPostFeatures>, key: PostKey) -> bool {
    forall|i: int, j: int|
        0 <= i < j < s.len() ==> lex_le(
            #[trigger] key_text(s[i], key),
            #[trigger] key_text(s[j], key),
        ) && key_text(s[i], key) != key_text(s[j], key)
}

/// No post of `s` has the key of the post before it.
pub open spec fn no_adjacent_keys(s: Seq<RawPostFeatures>, key: PostKey) -> bool {
    forall|i: int|
        0 <= i < s.len() - 1 ==> #[trigger] key_text(s[i], key) != key_text(s[i + 1], key)
}

/// What is left of `s` when every post is dropped whose key is that of the
/// last post kept before it.
pub open spec fn dedup_keys(s: Seq<RawPostFeatures>, key: PostKey) -> Seq<RawPostFeatures>
    decreases s.len(),
{
    if s.len() == 0 {
        s
    } else {
        let kept = dedup_keys(s.drop_last(), key);
        if kept.len() > 0 && key_text(kept.last(), key) == key_text(s.last(), key) {
            kept
        } else {
            kept.push(s.last())
        }
    }
}

/// `kept` is what dropping repeated keys leaves of the posts `posts` in some
/// order in which their keys never descend.
pub open spec fn is_dedup_of(
    kept: Seq<RawPostFeatures>,
    posts: Seq<RawPostFeatures>,
    key: PostKey,
) -> bool {
    exists|sorted: Seq<RawPostFeatures>|
        sorted.to_multiset() == posts.to_multiset() && sorted_by_key(sorted, key) && kept
            == #[trigger] dedup_keys(sorted, key)
}

/// Dropping repeated keys keeps posts of the sequence, no more than it has,
/// ends with a post that has the key of its last post, and leaves no post
/// with the key of the post before it. This holds of every sequence, sorted
/// or not.
pub proof fn lemma_dedup_keys_basics(s: Seq<RawPostFeatures>, key: PostKey)
    ensures
        dedup_keys(s, key).len() <= s.len(),
        s.len() > 0 ==> dedup_keys(s, key).len() > 0 && key_text(dedup_keys(s, key).last(), key)
            == key_text(s.last(), key),
        forall|k: int|
            0 <= k < dedup_keys(s, key).len() ==> s.contains(#[trigger] dedup_keys(s, key)[k]),
        no_adjacent_keys(dedup_keys(s, key), key),
    decreases s.len(),
{
    if s.len() > 0 {
        let front = s.drop_last();
        let kept = dedup_keys(front, key);
        lemma_dedup_keys_basics(front, key);
        let out = dedup_keys(s, key);
        assert forall|k: int| 0 <= k < out.len() implies s.contains(#[trigger] out[k]) by {
            if k < kept.len() {
                assert(front.contains(kept[k]));
                let i = choose|i: int| 0 <= i < front.len() && front[i] == kept[k];
                assert(s[i] == out[k]);
            } else {
                assert(s[s.len() - 1] == out[k]);
            }
        }
        assert forall|i: int| 0 <= i < out.len() - 1 implies #[trigger] key_text(out[i], key)
            != key_text(out[i + 1], key) by {
            if i + 1 < kept.len() {
                assert(key_text(kept[i], key) != key_text(kept[i + 1], key));
            }
        }
    }
}

/// Every key of the sequence is the key of a post that is kept.
pub proof fn lemma_dedup_keys_covers(s: Seq<RawPostFeatures>, key: PostKey, i: int)
    requires
        0 <= i < s.len(),
    ensures
        exists|k: int|
            0 <= k < dedup_keys(s, key).len() && key_text(#[trigger] dedup_keys(s, key)[k], key)
                == key_text(s[i], key),
    decreases s.len(),
{
    let front = s.drop_last();
    let kept = dedup_keys(front, key);
    let out = dedup_keys(s, key);
    lemma_dedup_keys_basics(s, key);
    if i == s.len() - 1 {
        assert(key_text(out[out.len() - 1], key) == key_text(s[i], key));
    } else {
        lemma_dedup_keys_covers(front, key, i);
        let k = choose|k: int|
            0 <= k < kept.len() && key_text(#[trigger] kept[k], key) == key_text(front[i], key);
        assert(key_text(out[k], key) == key_text(s[i], key));
    }
}

/// Where the keys never descend, the keys that are kept ascend.
pub proof fn lemma_dedup_keys_sorted(s: Seq<RawPostFeatures>, key: PostKey)
    requires
        sorted_by_key(s, key),
    ensures
        strictly_sorted_by_key(dedup_keys(s, key), key),
    decreases s.len(),
{
    if s.len() > 0 {
        let front = s.drop_last();
        let kept = dedup_keys(front, key);
        let out = dedup_keys(s, key);
        let last = s.last();
        assert(sorted_by_key(front, key)) by {
            assert forall|i: int, j: int| 0 <= i < j < front.len() implies lex_le(
                #[trigger] key_text(front[i], key),
                #[trigger] key_text(front[j], key),
            ) by {
                assert(lex_le(key_text(s[i], key), key_text(s[j], key)));
            }
        }
        lemma_dedup_keys_sorted(front, key);
        lemma_dedup_keys_basics(front, key);
        assert forall|k: int| 0 <= k < kept.len() implies lex_le(
            #[trigger] key_text(kept[k], key),
            key_text(last, key),
        ) by {
            assert(front.contains(kept[k]));
            let i = choose|i: int| 0 <= i < front.len() && front[i] == kept[k];
            assert(lex_le(key_text(s[i], key), key_text(s[s.len() - 1], key)));
        }
        if out.len() > kept.len() {
            assert forall|i: int, j: int| 0 <= i < j < out.len() implies lex_le(
                #[trigger] key_text(out[i], key),
                #[trigger] key_text(out[j], key),
            ) && key_text(out[i], key) != key_text(out[j], key) by {
                if j < kept.len() {
                    assert(lex_le(key_text(kept[i], key), key_text(kept[j], key)) && key_text(
                        kept[i],
                        key,
                    ) != key_text(kept[j], key));
                } else {
                    assert(out[j] == last);
                    assert(lex_le(key_text(kept[i], key), key_text(last, key)));
                    if key_text(kept[i], key) == key_text(last, key) {
                        let m = kept.len() - 1;
                        assert(lex_le(key_text(kept[m], key), key_text(last, key)));
                        if i < m {
                            assert(lex_le(key_text(kept[i], key), key_text(kept[m], key)));
                            lemma_lex_le_antisymmetric(key_text(kept[m], key), key_text(last, key));
                        }
                    }
                }
            }
        }
    }
}

/// The chosen field of a post.
pub fn key_of<'a>(post: &'a RawPostFeatures, key: PostKey) -> (text: &'a str)
    ensures
        text@ == key_text(*post, key),
{
    match key {
        PostKey::Title => post.title.as_str(),
        PostKey::Author => post.author.as_str(),
        PostKey::Subreddit => post.subreddit.as_str(),
        PostKey::Selftext => post.selftext.as_str(),
    }
}

/// Orders two posts by their keys.
pub fn compare_keys(a: &RawPostFeatures, b: &RawPostFeatures, key: PostKey) -> (order: Ordering)
    ensures
        match order {
            Ordering::Less => lex_le(key_text(*a, key), key_text(*b, key)) && key_text(*a, key)
                != key_text(*b, key),
            Ordering::Equal => key_text(*a, key) == key_text(*b, key),
            Ordering::Greater => lex_le(key_text(*b, key), key_text(*a, key)) && key_text(*a, key)
                != key_text(*b, key),
        },
{
    str_order(key_of(a, key), key_of(b, key))
}

/// Whether two posts have the same key.
pub fn same_key(a: &RawPostFeatures, b: &RawPostFeatures, key: PostKey) -> (same: bool)
    ensures
        same == (key_text(*a, key) == key_text(*b, key)),
{
    str_eq(key_of(a, key), key_of(b, key))
}

/// Sorts the posts with the slice method `sort_by`, ordered by
/// `compare_keys`: afterwards the same posts stand there, each as often as
/// before, and their keys never descend. Trusted: Verus has no specification
/// of `sort_by`. The method asks for a total order, which `compare_keys` is:
/// see the lemmas on `lex_le`.
#[verifier::external_body]
fn sort_posts(posts: &mut Vec<RawPostFeatures>, key: PostKey)
    ensures
        final(posts)@.to_multiset() == old(posts)@.to_multiset(),
        sorted_by_key(final(posts)@, key),
{
    posts.sort_by(|a, b| compare_keys(a, b, key));
}

/// Removes consecutive repeats with `dedup_by::dedup_by`, which tests each
/// post against the last post that it kept, here with `same_key`, and keeps
/// the post where the test fails. Trusted: Verus does not read the body of
/// that function.
#[verifier::external_body]
fn drop_repeated_keys(posts: &mut Vec<RawPostFeatures>, key: PostKey)
    ensures
        final(posts)@ == dedup_keys(old(posts)@, key),
{
    dedup_by(posts, |a, b| same_key(a, b, key));
}

/// Keeps one post of each key. The posts are sorted by the key, and a post is
/// then dropped where its key is that of the post before it; which of the
/// posts of one key comes first in the sorted order, and so is kept, is left
/// open. The posts come out in the order of their keys, not in the order in
/// which they were given.
pub fn dedup_by_key(posts: Vec<RawPostFeatures>, key: PostKey) -> (kept: Vec<RawPostFeatures>)
    ensures
        is_dedup_of(kept@, posts@, key),
        kept@.len() <= posts@.len(),
        no_adjacent_keys(kept@, key),
        strictly_sorted_by_key(kept@, key),
        forall|k: int| 0 <= k < kept@.len() ==> posts@.contains(#[trigger] kept@[k]),
        keys(kept@, key).to_set() == keys(posts@, key).to_set(),
        kept@.len() == keys(posts@, key).to_set().len(),
{
    let mut kept = posts;
    sort_posts(&mut kept, key);
    let ghost sorted = kept@;
    drop_repeated_keys(&mut kept, key);
    proof {
        broadcast use to_multiset_contains;

        sorted.to_multiset_ensures();
        posts@.to_multiset_ensures();
        assert(kept@ == dedup_keys(sorted, key));
        lemma_dedup_keys_basics(sorted, key);
        lemma_dedup_keys_sorted(sorted, key);
        assert forall|k: int| 0 <= k < kept@.len() implies posts@.contains(#[trigger] kept@[k]) by {
            assert(sorted.contains(kept@[k]));
            assert(sorted.to_multiset().count(kept@[k]) > 0);
        }
        let kept_keys = keys(kept@, key);
        let all_keys = keys(posts@, key);
        assert forall|t: Seq<char>| kept_keys.contains(t) implies all_keys.contains(t) by {
            let k = choose|k: int| 0 <= k < kept_keys.len() && kept_keys[k] == t;
            assert(posts@.contains(kept@[k]));
            let i = choose|i: int| 0 <= i < posts@.len() && posts@[i] == kept@[k];
            assert(all_keys[i] == t);
        }
        assert forall|t: Seq<char>| all_keys.contains(t) implies kept_keys.contains(t) by {
            let i = choose|i: int| 0 <= i < all_keys.len() && all_keys[i] == t;
            assert(posts@.contains(posts@[i]));
            assert(posts@.to_multiset().count(posts@[i]) > 0);
            assert(sorted.contains(posts@[i]));
            let m = choose|m: int| 0 <= m < sorted.len() && sorted[m] == posts@[i];
            lemma_dedup_keys_covers(sorted, key, m);
            let k = choose|k: int|
                0 <= k < kept@.len() && key_text(#[trigger] kept@[k], key) == key_text(
                    sorted[m],
                    key,
                );
            assert(kept_keys[k] == t);
        }
        assert(kept_keys.to_set() =~= all_keys.to_set());
        assert(kept_keys.no_duplicates()) by {
            assert forall|i: int, j: int|
                0 <= i < kept_keys.len() && 0 <= j < kept_keys.len() && i != j implies kept_keys[i]
                != kept_keys[j] by {
                if i < j {
                    assert(key_text(kept@[i], key) != key_text(kept@[j], key));
                } else {
                    assert(key_text(kept@[j], key) != key_text(kept@[i], key));
                }
            }
        }
        kept_keys.unique_seq_to_set();
    }
    kept
}

/// Keeps one post of each title: `dedup_by_key` with the title as the key.
pub fn dedup_by_title(posts: Vec<RawPostFeatures>) -> (kept: Vec<RawPostFeatures>)
    ensures
        is_dedup_of(kept@, posts@, PostKey::Title),
        kept@.len() <= posts@.len(),
        no_adjacent_keys(kept@, PostKey::Title),
        strictly_sorted_by_key(kept@, PostKey::Title),
        forall|k: int| 0 <= k < kept@.len() ==> posts@.contains(#[trigger] kept@[k]),
        keys(kept@, PostKey::Title).to_set() == keys(posts@, PostKey::Title).to_set(),
        kept@.len() == keys(posts@, PostKey::Title).to_set().len(),
{
    dedup_by_key(posts, PostKey::Title)
}

} // verus!
