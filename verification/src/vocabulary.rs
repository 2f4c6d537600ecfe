//! The vocabulary of a corpus: its distinct words, in the order in which they
//! first appear, and the number of texts that hold each of them.

use vstd::prelude::*;
use crate::counting::{
    distinct, lemma_distinct_concat, lemma_distinct_concat_same, lemma_occurrences_concat,
    lemma_occurrences_in_distinct, occurrences,
};
use crate::document::{doc_words, words_to_doc, DocModel, Word};
use crate::text::{borrow_words, str_eq};

verus! {

/// The words of all texts, text after text.
pub open spec fn all_words(texts: Seq<Seq<Word>>) -> Seq<Word>
    decreases texts.len(),
{
    if texts.len() == 0 {
        Seq::empty()
    } else {
        all_words(texts.drop_last()) + texts.last()
    }
}

/// The distinct words of each text, text after text: a word stands once for
/// each text that holds it.
pub open spec fn words_once_per_text(texts: Seq<Seq<Word>>) -> Seq<Word>
    decreases texts.len(),
{
    if texts.len() == 0 {
        Seq::empty()
    } else {
        words_once_per_text(texts.drop_last()) + distinct(texts.last())
    }
}

/// The number of texts that hold `word`.
pub open spec fn texts_holding(texts: Seq<Seq<Word>>, word: Word) -> nat
    decreases texts.len(),
{
    if texts.len() == 0 {
        0
    } else {
        texts_holding(texts.drop_last(), word) + if texts.last().contains(word) {
            1nat
        } else {
            0nat
        }
    }
}

/// The first place of `word` in `seen`, if it stands there.
pub fn position_of(seen: &Vec<&str>, word: &str) -> (place: Option<usize>)
    ensures
        match place {
            Some(k) => {
                &&& k < seen@.len()
                &&& seen@[k as int]@ == word@
                &&& forall|j: int| 0 <= j < k ==> (#[trigger] seen@[j])@ != word@
            },
            None => forall|j: int| 0 <= j < seen@.len() ==> (#[trigger] seen@[j])@ != word@,
        },
{
    let mut k: usize = 0;
    while k < seen.len()
        invariant
            k <= seen@.len(),
            forall|j: int| 0 <= j < k ==> (#[trigger] seen@[j])@ != word@,
        decreases seen@.len() - k,
    {
        if str_eq(seen[k], word) {
            return Some(k);
        }
        k = k + 1;
    }
    None
}

/// The distinct words of `words`, in the order of their first appearance.
pub fn distinct_words<'a>(words: &[&'a str]) -> (kept: Vec<&'a str>)
    ensures
        kept.deep_view() == distinct(words.deep_view()),
{
    let ghost all = words.deep_view();
    let mut kept: Vec<&'a str> = Vec::new();
    let mut i: usize = 0;
    proof {
        assert(all.take(0) =~= Seq::<Word>::empty());
        assert(kept.deep_view() =~= distinct(all.take(0)));
    }
    while i < words.len()
        invariant
            i <= words@.len(),
            all == words.deep_view(),
            kept.deep_view() == distinct(all.take(i as int)),
        decreases words@.len() - i,
    {
        let word: &'a str = words[i];
        let ghost before = kept.deep_view();
        let ghost held = kept@;
        proof {
            assert(all[i as int] == word@);
            assert(all.take(i + 1).drop_last() =~= all.take(i as int));
            assert(all.take(i + 1).last() == word@);
        }
        match position_of(&kept, word) {
            Some(k) => {
                proof {
                    assert(before[k as int] == word@);
                    assert(before.contains(word@));
                }
            },
            None => {
                proof {
                    assert forall|j: int| 0 <= j < before.len() implies before[j] != word@ by {
                        assert(before[j] == held[j]@);
                    }
                    assert(!before.contains(word@));
                }
                kept.push(word);
                proof {
                    assert(kept.deep_view() =~= before.push(word@));
                }
            },
        }
        i = i + 1;
    }
    proof {
        assert(all.take(i as int) =~= all);
    }
    kept
}

/// Listing each word once for each text changes neither which words there
/// are nor the order in which they first appear.
pub proof fn lemma_once_per_text_distinct(texts: Seq<Seq<Word>>)
    ensures
        distinct(words_once_per_text(texts)) == distinct(all_words(texts)),
    decreases texts.len(),
{
    if texts.len() > 0 {
        let front = texts.drop_last();
        lemma_once_per_text_distinct(front);
        lemma_distinct_concat(words_once_per_text(front), texts.last());
        lemma_distinct_concat_same(words_once_per_text(front), all_words(front), texts.last());
    }
}

/// Where each word is listed once for each text, a word stands as often as
/// there are texts that hold it.
pub proof fn lemma_once_per_text_occurrences(texts: Seq<Seq<Word>>, word: Word)
    ensures
        occurrences(words_once_per_text(texts), word) == texts_holding(texts, word),
    decreases texts.len(),
{
    if texts.len() > 0 {
        let front = texts.drop_last();
        lemma_once_per_text_occurrences(front, word);
        lemma_occurrences_concat(words_once_per_text(front), distinct(texts.last()), word);
        lemma_occurrences_in_distinct(texts.last(), word);
    }
}

/// Appends the items of `more` to `list`.
fn append_all<'a>(list: &mut Vec<&'a str>, more: &Vec<&'a str>)
    ensures
        final(list).deep_view() == old(list).deep_view() + more.deep_view(),
{
    let ghost start = list.deep_view();
    let mut k: usize = 0;
    proof {
        assert(more.deep_view().take(0) =~= Seq::<Word>::empty());
        assert(list.deep_view() =~= start + more.deep_view().take(0));
    }
    while k < more.len()
        invariant
            k <= more@.len(),
            list.deep_view() == start + more.deep_view().take(k as int),
        decreases more@.len() - k,
    {
        let ghost before = list.deep_view();
        list.push(more[k]);
        proof {
            assert(list.deep_view() =~= before.push(more@[k as int]@));
            assert(more.deep_view().take(k + 1) =~= more.deep_view().take(k as int).push(
                more@[k as int]@,
            ));
            assert(list.deep_view() =~= start + more.deep_view().take(k + 1));
        }
        k = k + 1;
    }
    proof {
        assert(more.deep_view().take(k as int) =~= more.deep_view());
    }
}

/// The distinct words of a corpus, in the order in which they first appear.
/// A text is given by its words, in order.
pub fn vocabulary(texts: &[Vec<String>]) -> (words: Vec<String>)
    ensures
        words.deep_view() == distinct(all_words(texts.deep_view())),
{
    let ghost corpus = texts.deep_view();
    let mut flat: Vec<&str> = Vec::new();
    let mut i: usize = 0;
    proof {
        assert(corpus.take(0) =~= Seq::<Seq<Word>>::empty());
        assert(flat.deep_view() =~= all_words(corpus.take(0)));
    }
    while i < texts.len()
        invariant
            i <= texts@.len(),
            corpus == texts.deep_view(),
            flat.deep_view() == all_words(corpus.take(i as int)),
        decreases texts@.len() - i,
    {
        let text = borrow_words(texts[i].as_slice());
        proof {
            assert(corpus.take(i + 1).drop_last() =~= corpus.take(i as int));
            assert(corpus.take(i + 1).last() == text.deep_view());
        }
        append_all(&mut flat, &text);
        i = i + 1;
    }
    proof {
        assert(corpus.take(i as int) =~= corpus);
    }
    let kept = distinct_words(flat.as_slice());
    let mut words: Vec<String> = Vec::with_capacity(kept.len());
    let mut k: usize = 0;
    while k < kept.len()
        invariant
            k <= kept@.len(),
            words@.len() == k,
            forall|j: int| 0 <= j < k ==> (#[trigger] words@[j])@ == kept@[j]@,
        decreases kept@.len() - k,
    {
        words.push(kept[k].to_owned());
        k = k + 1;
    }
    proof {
        assert(words.deep_view() =~= kept.deep_view());
    }
    words
}

/// `table` is the table of word frequencies of `texts`: it lists the
/// distinct words of the corpus in the order of their first appearance, each
/// with the number of texts that hold it.
pub open spec fn is_word_freqs_of(table: DocModel, texts: Seq<Seq<Word>>) -> bool {
    &&& doc_words(table) == distinct(all_words(texts))
    &&& forall|k: int|
        0 <= k < table.len() ==> (#[trigger] table[k]).1 == texts_holding(texts, table[k].0)
}

/// Counts, for each word of a corpus, the texts that hold it. A text is
/// given by its words, in order; a word that stands several times in one
/// text is counted once for that text.
pub fn word_freqs(texts: &[Vec<String>]) -> (table: Vec<(String, usize)>)
    ensures
        is_word_freqs_of(table.deep_view(), texts.deep_view()),
{
    let ghost corpus = texts.deep_view();
    let mut once: Vec<&str> = Vec::new();
    let mut i: usize = 0;
    proof {
        assert(corpus.take(0) =~= Seq::<Seq<Word>>::empty());
        assert(once.deep_view() =~= words_once_per_text(corpus.take(0)));
    }
    while i < texts.len()
        invariant
            i <= texts@.len(),
            corpus == texts.deep_view(),
            once.deep_view() == words_once_per_text(corpus.take(i as int)),
        decreases texts@.len() - i,
    {
        let text = borrow_words(texts[i].as_slice());
        let kept = distinct_words(text.as_slice());
        proof {
            assert(corpus.take(i + 1).drop_last() =~= corpus.take(i as int));
            assert(corpus.take(i + 1).last() == text.deep_view());
        }
        append_all(&mut once, &kept);
        i = i + 1;
    }
    let table = words_to_doc(once.as_slice());
    proof {
        assert(corpus.take(i as int) =~= corpus);
        let t = table.deep_view();
        lemma_once_per_text_distinct(corpus);
        assert forall|k: int| 0 <= k < t.len() implies (#[trigger] t[k]).1 == texts_holding(
            corpus,
            t[k].0,
        ) by {
            lemma_once_per_text_occurrences(corpus, t[k].0);
        }
    }
    table
}

} // verus!
