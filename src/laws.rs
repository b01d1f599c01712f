//! Properties that relate several calls, or that hold of every corpus.

use vstd::prelude::*;
use crate::sampler::{ascending, corpus_sample, emitted, index_set};
use crate::words::{candidates, distinct_words, frequent_in, occurrences, picked_word, vocabulary};

verus! {

/// The sampler is reproducible: two runs with the same secret, user, corpus
/// and size give the same text.
pub proof fn sample_is_reproducible(
    secret: Seq<char>,
    uname: Seq<char>,
    lines: Seq<Seq<char>>,
    size: nat,
    first: Seq<char>,
    second: Seq<char>,
)
    requires
        first == corpus_sample(secret, uname, lines, size),
        second == corpus_sample(secret, uname, lines, size),
    ensures
        first == second,
{
}

/// The word picker is reproducible: two calls with the same arguments,
/// draw index included, pick the same word or fail alike.
pub proof fn pick_is_reproducible(
    secret: Seq<char>,
    uname: Seq<char>,
    lines: Seq<Seq<char>>,
    min_occurs: nat,
    min_length: nat,
    nth: nat,
    first: Option<Seq<char>>,
    second: Option<Seq<char>>,
)
    requires
        first == picked_word(secret, uname, lines, min_occurs, min_length, nth),
        second == picked_word(secret, uname, lines, min_occurs, min_length, nth),
    ensures
        first == second,
{
}

proof fn lemma_distinct_words_contains(words: Seq<Seq<char>>, w: Seq<char>)
    ensures
        distinct_words(words).contains(w) <==> words.contains(w),
    decreases words.len(),
{
    if words.len() > 0 {
        let prefix = words.drop_last();
        lemma_distinct_words_contains(prefix, w);
        let seen = distinct_words(prefix);
        if prefix.contains(w) {
            let k = choose|k: int| 0 <= k < prefix.len() && prefix[k] == w;
            assert(words[k] == w);
        }
        if words.contains(w) && !prefix.contains(w) {
            let k = choose|k: int| 0 <= k < words.len() && words[k] == w;
            if k < prefix.len() {
                assert(prefix[k] == w);
            }
            assert(words.last() == w);
        }
        if !seen.contains(words.last()) {
            if seen.push(words.last()).contains(w) && !seen.contains(w) {
                let k = choose|k: int| 0 <= k < seen.len() + 1 && seen.push(words.last())[k] == w;
                assert(words.last() == w);
            }
            if seen.contains(w) {
                let k = choose|k: int| 0 <= k < seen.len() && seen[k] == w;
                assert(seen.push(words.last())[k] == w);
            }
            if words.last() == w {
                assert(seen.push(words.last())[seen.len() as int] == w);
            }
        }
        if words.contains(w) {
            let k = choose|k: int| 0 <= k < words.len() && words[k] == w;
            if k < prefix.len() {
                assert(prefix[k] == w);
            }
        }
    }
}

/// The picker has nothing to pick from exactly when no candidate word of the
/// corpus reaches the occurrence threshold; in particular when the corpus
/// holds no word of `min_length` bytes or more.
pub proof fn vocabulary_empty_iff_nothing_frequent(lines: Seq<Seq<char>>, min_occurs: nat, min_length: nat)
    ensures
        vocabulary(lines, min_occurs, min_length).len() == 0 <==> (forall|w: Seq<char>|
            #[trigger] candidates(lines, min_length).contains(w) ==> occurrences(
                candidates(lines, min_length),
                w,
            ) < min_occurs),
        candidates(lines, min_length).len() == 0 ==> vocabulary(lines, min_occurs, min_length).len() == 0,
{
    let words = candidates(lines, min_length);
    let keep = frequent_in(words, min_occurs);
    let d = distinct_words(words);
    reveal(Seq::filter);
    if d.filter(keep).len() == 0 {
        assert forall|w: Seq<char>| #[trigger] words.contains(w) implies occurrences(words, w) < min_occurs by {
            lemma_distinct_words_contains(words, w);
            let k = choose|k: int| 0 <= k < d.len() && d[k] == w;
            if occurrences(words, w) >= min_occurs {
                d.lemma_filter_contains(keep, k);
            }
        }
    } else {
        let x = d.filter(keep)[0];
        d.lemma_filter_pred(keep, 0);
        d.lemma_filter_contains_rev(keep, x);
        lemma_distinct_words_contains(words, x);
        assert(words.contains(x));
        assert(!(occurrences(words, x) < min_occurs));
    }
    if words.len() == 0 {
        assert(d.len() == 0);
        assert(d.filter(keep) =~= d);
    }
}

/// The lines at positions `idx`, in the order of `idx`, each followed by a
/// newline.
pub open spec fn joined(lines: Seq<Seq<char>>, idx: Seq<usize>) -> Seq<char>
    decreases idx.len(),
{
    if idx.len() == 0 {
        Seq::empty()
    } else {
        joined(lines, idx.drop_last()) + lines[idx.last() as int].push('\n')
    }
}

proof fn lemma_joined_prefix(lines: Seq<Seq<char>>, idx: Seq<usize>)
    requires
        lines.len() > 0,
        forall|k: int| 0 <= k < idx.len() ==> idx[k] < lines.len() - 1,
    ensures
        joined(lines.drop_last(), idx) == joined(lines, idx),
    decreases idx.len(),
{
    if idx.len() > 0 {
        lemma_joined_prefix(lines, idx.drop_last());
    }
}

proof fn lemma_emitted_same_positions(lines: Seq<Seq<char>>, a: Set<int>, b: Set<int>)
    requires
        forall|i: int| 0 <= i < lines.len() ==> (a.contains(i) <==> b.contains(i)),
    ensures
        emitted(lines, a) == emitted(lines, b),
    decreases lines.len(),
{
    if lines.len() > 0 {
        lemma_emitted_same_positions(lines.drop_last(), a, b);
    }
}

/// The sampler emits lines in file order: for positions in ascending order,
/// the emitted text is those lines, one after the other, in that order.
pub proof fn emitted_follows_file_order(lines: Seq<Seq<char>>, idx: Seq<usize>)
    requires
        ascending(idx),
        forall|k: int| 0 <= k < idx.len() ==> idx[k] < lines.len(),
    ensures
        emitted(lines, index_set(idx)) == joined(lines, idx),
    decreases lines.len(),
{
    if lines.len() == 0 {
        if idx.len() > 0 {
            assert(idx[0] < lines.len());
        }
    } else {
        let last = lines.len() - 1;
        let prefix = lines.drop_last();
        if idx.len() > 0 && idx.last() as int == last {
            let rest = idx.drop_last();
            assert forall|i: int| 0 <= i < prefix.len() implies (index_set(idx).contains(i) <==> index_set(rest).contains(i)) by {
                if index_set(idx).contains(i) {
                    let k = choose|k: int| 0 <= k < idx.len() && idx[k] as int == i;
                    assert(k < rest.len());
                    assert(rest[k] as int == i);
                }
                if index_set(rest).contains(i) {
                    let k = choose|k: int| 0 <= k < rest.len() && rest[k] as int == i;
                    assert(idx[k] as int == i);
                }
            }
            lemma_emitted_same_positions(prefix, index_set(idx), index_set(rest));
            assert forall|k: int| 0 <= k < rest.len() implies rest[k] < prefix.len() by {
                assert(idx[k] < idx[idx.len() - 1]);
            }
            emitted_follows_file_order(prefix, rest);
            lemma_joined_prefix(lines, rest);
            assert(index_set(idx).contains(last)) by {
                assert(idx[idx.len() - 1] as int == last);
            }
        } else {
            assert forall|k: int| 0 <= k < idx.len() implies idx[k] < prefix.len() by {
                if idx[k] as int == last {
                    assert(idx[idx.len() - 1] >= idx[k]);
                } else {
                    assert(idx[k] < lines.len());
                }
            }
            assert(!index_set(idx).contains(last)) by {
                if index_set(idx).contains(last) {
                    let k = choose|k: int| 0 <= k < idx.len() && idx[k] as int == last;
                    assert(idx[k] < prefix.len());
                }
            }
            emitted_follows_file_order(prefix, idx);
            lemma_joined_prefix(lines, idx);
            assert(emitted(lines, index_set(idx)) =~= emitted(prefix, index_set(idx)));
        }
    }
}

} // verus!
