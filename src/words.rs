//! The word picker: one reproducible word of a corpus's vocabulary.

use vstd::prelude::*;
use vstd::utf8::encode_utf8;
use crate::digest::{seed, seed_bytes, sha256_of};
use crate::error::Error;
use crate::generator::{range_draw_of, Generator};
use crate::sampler::text_lines;

verus! {

/// Whether `char::is_alphabetic` holds of `c` (Unicode's `Alphabetic`).
pub uninterp spec fn alphabetic(c: char) -> bool;

/// The lowercase mapping of a string, as `str::to_lowercase` computes it.
pub uninterp spec fn lower_of(s: Seq<char>) -> Seq<char>;

/// Relies on `char::is_alphabetic`: a property of the character alone.
#[verifier::external_body]
fn is_alphabetic(c: char) -> (r: bool)
    ensures
        r == alphabetic(c),
{
    c.is_alphabetic()
}

/// Relies on `str::to_lowercase`: the result depends on the characters alone.
#[verifier::external_body]
fn lowercase(s: &str) -> (r: String)
    ensures
        r@ == lower_of(s@),
{
    s.to_lowercase()
}

/// Relies on `String::push`: appends one character.
#[verifier::external_body]
fn push_char(s: &mut String, c: char)
    ensures
        final(s)@ == old(s)@.push(c),
{
    s.push(c)
}

/// Scans `s` from the left: the alphabetic runs that a separator has closed,
/// and the run still open at the end.
pub open spec fn scan_runs(s: Seq<char>) -> (Seq<Seq<char>>, Seq<char>)
    decreases s.len(),
{
    if s.len() == 0 {
        (Seq::empty(), Seq::empty())
    } else {
        let (closed, open) = scan_runs(s.drop_last());
        let c = s.last();
        if alphabetic(c) {
            (closed, open.push(c))
        } else if open.len() > 0 {
            (closed.push(open), Seq::empty())
        } else {
            (closed, Seq::empty())
        }
    }
}

/// The maximal runs of alphabetic characters of `s`, in order: every
/// character that is not alphabetic, a digit or a punctuation mark alike,
/// separates two words.
pub open spec fn alpha_runs(s: Seq<char>) -> Seq<Seq<char>> {
    let (closed, open) = scan_runs(s);
    if open.len() > 0 { closed.push(open) } else { closed }
}

/// The runs of at least `min_length` bytes (in UTF-8) among `runs`,
/// lowercased, in order.
pub open spec fn long_lowered(runs: Seq<Seq<char>>, min_length: nat) -> Seq<Seq<char>>
    decreases runs.len(),
{
    if runs.len() == 0 {
        Seq::empty()
    } else {
        let rest = long_lowered(runs.drop_last(), min_length);
        if encode_utf8(runs.last()).len() >= min_length {
            rest.push(lower_of(runs.last()))
        } else {
            rest
        }
    }
}

/// The words that one line offers: its alphabetic runs of at least
/// `min_length` bytes, lowercased.
pub open spec fn line_candidates(line: Seq<char>, min_length: nat) -> Seq<Seq<char>> {
    long_lowered(alpha_runs(line), min_length)
}

/// How many times `w` occurs in `words`.
pub open spec fn occurrences(words: Seq<Seq<char>>, w: Seq<char>) -> nat
    decreases words.len(),
{
    if words.len() == 0 {
        0
    } else {
        occurrences(words.drop_last(), w) + if words.last() == w { 1nat } else { 0nat }
    }
}

/// The distinct elements of `words`, in order of first occurrence.
pub open spec fn distinct_words(words: Seq<Seq<char>>) -> Seq<Seq<char>>
    decreases words.len(),
{
    if words.len() == 0 {
        Seq::empty()
    } else {
        let seen = distinct_words(words.drop_last());
        if seen.contains(words.last()) {
            seen
        } else {
            seen.push(words.last())
        }
    }
}

/// A count as the table holds it: exact up to `usize::MAX`, where it stays.
pub open spec fn capped(n: nat) -> nat {
    if n <= usize::MAX { n } else { usize::MAX as nat }
}

/// Whether `w` occurs at least `min_occurs` times in `words`.
pub open spec fn frequent_in(words: Seq<Seq<char>>, min_occurs: nat) -> spec_fn(Seq<char>) -> bool {
    |w: Seq<char>| occurrences(words, w) >= min_occurs
}

/// The vocabulary that a word is picked from: the distinct candidate words
/// of the corpus that occur at least `min_occurs` times, in order of first
/// occurrence.
pub open spec fn vocabulary(lines: Seq<Seq<char>>, min_occurs: nat, min_length: nat) -> Seq<Seq<char>> {
    let words = candidates(lines, min_length);
    distinct_words(words).filter(frequent_in(words, min_occurs))
}

/// The words that the corpus offers, line after line.
pub open spec fn candidates(lines: Seq<Seq<char>>, min_length: nat) -> Seq<Seq<char>>
    decreases lines.len(),
{
    if lines.len() == 0 {
        Seq::empty()
    } else {
        candidates(lines.drop_last(), min_length) + line_candidates(lines.last(), min_length)
    }
}

/// The maximal alphabetic runs of `line`, in order.
pub fn alphabetic_runs(line: &str) -> (r: Vec<String>)
    ensures
        r@.map_values(|w: String| w@) == alpha_runs(line@),
{
    let mut chars: Vec<char> = Vec::new();
    for c in it: line.chars()
        invariant
            chars@ == it.seq().take(it.index() as int),
    {
        chars.push(c);
    }
    assert(chars@ == line@);
    let mut runs: Vec<String> = Vec::new();
    let mut open = String::new();
    let mut i: usize = 0;
    while i < chars.len()
        invariant
            i <= chars@.len(),
            chars@ == line@,
            (runs@.map_values(|w: String| w@), open@) == scan_runs(chars@.take(i as int)),
        decreases chars@.len() - i,
    {
        let c = chars[i];
        assert(chars@.take(i + 1).drop_last() =~= chars@.take(i as int));
        let ghost before = runs@;
        if is_alphabetic(c) {
            push_char(&mut open, c);
        } else if !open.as_str().is_empty() {
            runs.push(open);
            assert(runs@.map_values(|w: String| w@) =~= before.map_values(|w: String| w@).push(open@));
            open = String::new();
        } else {
            open = String::new();
        }
        i = i + 1;
    }
    assert(chars@.take(chars@.len() as int) =~= chars@);
    if !open.as_str().is_empty() {
        let ghost before = runs@;
        runs.push(open);
        assert(runs@.map_values(|w: String| w@) =~= before.map_values(|w: String| w@).push(open@));
    }
    runs
}

proof fn lemma_distinct_words_unique(words: Seq<Seq<char>>)
    ensures
        distinct_words(words).no_duplicates(),
    decreases words.len(),
{
    if words.len() > 0 {
        lemma_distinct_words_unique(words.drop_last());
        let seen = distinct_words(words.drop_last());
        if !seen.contains(words.last()) {
            let d = seen.push(words.last());
            assert forall|a: int, b: int| 0 <= a < d.len() && 0 <= b < d.len() && a != b implies d[a] != d[b] by {
                if a == seen.len() as int {
                    assert(!seen.contains(d[a]));
                    assert(d[b] == seen[b]);
                } else if b == seen.len() as int {
                    assert(d[a] == seen[a]);
                }
            }
        }
    }
}

proof fn lemma_absent_never_occurs(words: Seq<Seq<char>>, w: Seq<char>)
    requires
        !distinct_words(words).contains(w),
    ensures
        occurrences(words, w) == 0,
    decreases words.len(),
{
    if words.len() > 0 {
        let seen = distinct_words(words.drop_last());
        if seen.contains(w) {
            if seen.contains(words.last()) {
            } else {
                assert(seen.push(words.last()).contains(w)) by {
                    let k = choose|k: int| 0 <= k < seen.len() && seen[k] == w;
                    assert(seen.push(words.last())[k] == w);
                }
            }
        } else {
            lemma_absent_never_occurs(words.drop_last(), w);
            assert(words.last() != w) by {
                if words.last() == w {
                    if !seen.contains(words.last()) {
                        assert(seen.push(words.last())[seen.len() as int] == w);
                    }
                }
            }
        }
    }
}

/// Adds one occurrence of `w` to the table `keys` / `counts`.
fn add_word(keys: &mut Vec<String>, counts: &mut Vec<usize>, w: String, seen: Ghost<Seq<Seq<char>>>)
    requires
        old(keys)@.map_values(|k: String| k@) == distinct_words(seen@),
        old(counts)@.len() == old(keys)@.len(),
        forall|j: int| 0 <= j < old(keys)@.len() ==> old(counts)@[j] == capped(occurrences(seen@, #[trigger] old(keys)@[j]@)),
    ensures
        final(keys)@.map_values(|k: String| k@) == distinct_words(seen@.push(w@)),
        final(counts)@.len() == final(keys)@.len(),
        forall|j: int| 0 <= j < final(keys)@.len() ==> final(counts)@[j] == capped(occurrences(seen@.push(w@), #[trigger] final(keys)@[j]@)),
{
    let ghost next = seen@.push(w@);
    assert(next.drop_last() =~= seen@);
    assert(next.last() == w@);
    let ghost views = keys@.map_values(|k: String| k@);
    assert(views.len() == keys@.len());
    let mut j: usize = 0;
    while j < keys.len()
        invariant
            j <= keys@.len(),
            keys@ == old(keys)@,
            counts@ == old(counts)@,
            forall|t: int| 0 <= t < j ==> keys@[t]@ != w@,
            views == keys@.map_values(|k: String| k@),
            views.len() == keys@.len(),
            views == distinct_words(seen@),
            next == seen@.push(w@),
            next.len() > 0,
            next.drop_last() == seen@,
            next.last() == w@,
            counts@.len() == keys@.len(),
            forall|t: int| 0 <= t < keys@.len() ==> counts@[t] == capped(occurrences(seen@, #[trigger] keys@[t]@)),
        decreases keys@.len() - j,
    {
        if keys[j] == w {
            assert(views[j as int] == w@);
            assert(distinct_words(seen@).contains(w@));
            assert(distinct_words(next) == views);
            proof {
                lemma_distinct_words_unique(seen@);
            }
            let c = counts[j];
            if c < usize::MAX {
                counts.set(j, c + 1);
            }
            assert forall|t: int| 0 <= t < keys@.len() implies counts@[t] == capped(occurrences(next, #[trigger] keys@[t]@)) by {
                assert(occurrences(next, keys@[t]@) == occurrences(seen@, keys@[t]@) + if keys@[t]@ == w@ { 1nat } else { 0nat });
                if t != j as int {
                    assert(views[t] == keys@[t]@);
                    assert(keys@[t]@ != w@) by {
                        if keys@[t]@ == w@ {
                            assert(views[t] == views[j as int]);
                        }
                    }
                }
            }
            return;
        }
        j = j + 1;
    }
    assert(!distinct_words(seen@).contains(w@)) by {
        if distinct_words(seen@).contains(w@) {
            let t = choose|t: int| 0 <= t < views.len() && views[t] == w@;
            assert(keys@[t]@ == w@);
        }
    }
    proof {
        lemma_absent_never_occurs(seen@, w@);
    }
    let ghost wv = w@;
    keys.push(w);
    counts.push(1);
    assert(keys@.map_values(|k: String| k@) =~= views.push(wv));
}

/// The vocabulary of the corpus: the distinct lowercased alphabetic words
/// of at least `min_length` bytes that occur at least `min_occurs` times, in
/// order of first occurrence.
pub fn frequent_words(lines: &Vec<String>, min_occurs: usize, min_length: usize) -> (r: Vec<String>)
    ensures
        r@.map_values(|w: String| w@) == vocabulary(text_lines(lines@), min_occurs as nat, min_length as nat),
{
    let ghost text = text_lines(lines@);
    let mut keys: Vec<String> = Vec::new();
    let mut counts: Vec<usize> = Vec::new();
    let ghost mut seen: Seq<Seq<char>> = Seq::empty();
    assert(keys@.map_values(|k: String| k@) =~= distinct_words(seen));
    let mut i: usize = 0;
    while i < lines.len()
        invariant
            i <= lines@.len(),
            text == text_lines(lines@),
            seen == candidates(text.take(i as int), min_length as nat),
            keys@.map_values(|k: String| k@) == distinct_words(seen),
            counts@.len() == keys@.len(),
            forall|j: int| 0 <= j < keys@.len() ==> counts@[j] == capped(occurrences(seen, #[trigger] keys@[j]@)),
        decreases lines@.len() - i,
    {
        let runs = alphabetic_runs(lines[i].as_str());
        let ghost rv = runs@.map_values(|w: String| w@);
        let ghost start = seen;
        assert(rv.take(0) =~= Seq::<Seq<char>>::empty());
        assert(seen =~= start + long_lowered(rv.take(0), min_length as nat));
        let mut j: usize = 0;
        while j < runs.len()
            invariant
                j <= runs@.len(),
                rv == runs@.map_values(|w: String| w@),
                rv.len() == runs@.len(),
                seen == start + long_lowered(rv.take(j as int), min_length as nat),
                keys@.map_values(|k: String| k@) == distinct_words(seen),
                counts@.len() == keys@.len(),
                forall|t: int| 0 <= t < keys@.len() ==> counts@[t] == capped(occurrences(seen, #[trigger] keys@[t]@)),
            decreases runs@.len() - j,
        {
            assert(rv.take(j + 1).drop_last() =~= rv.take(j as int));
            assert(rv.take(j + 1).last() == runs@[j as int]@);
            let run: &str = runs[j].as_str();
            assert(run@ == rv[j as int]);
            let ghost step = long_lowered(rv.take(j + 1), min_length as nat);
            assert(step == if encode_utf8(run@).len() >= min_length {
                long_lowered(rv.take(j as int), min_length as nat).push(lower_of(run@))
            } else {
                long_lowered(rv.take(j as int), min_length as nat)
            });
            if run.as_bytes().len() >= min_length {
                let w = lowercase(run);
                add_word(&mut keys, &mut counts, w, Ghost(seen));
                proof {
                    seen = seen.push(w@);
                }
            }
            assert(seen =~= start + long_lowered(rv.take(j + 1), min_length as nat));
            j = j + 1;
        }
        assert(rv.take(rv.len() as int) =~= rv);
        assert(text.take(i + 1).drop_last() =~= text.take(i as int));
        assert(text.take(i + 1).last() == lines@[i as int]@);
        i = i + 1;
    }
    assert(text.take(text.len() as int) =~= text);

    let ghost views = keys@.map_values(|k: String| k@);
    let ghost keep = frequent_in(seen, min_occurs as nat);
    let mut r: Vec<String> = Vec::new();
    let mut k: usize = 0;
    proof {
        reveal(Seq::filter);
    }
    assert(r@.map_values(|w: String| w@) =~= views.take(0).filter(keep));
    while k < keys.len()
        invariant
            k <= keys@.len(),
            views == keys@.map_values(|t: String| t@),
            views.len() == keys@.len(),
            keep == frequent_in(seen, min_occurs as nat),
            counts@.len() == keys@.len(),
            forall|t: int| 0 <= t < keys@.len() ==> counts@[t] == capped(occurrences(seen, #[trigger] keys@[t]@)),
            r@.map_values(|w: String| w@) == views.take(k as int).filter(keep),
        decreases keys@.len() - k,
    {
        assert(views.take(k + 1).drop_last() =~= views.take(k as int));
        assert(views.take(k + 1).last() == keys@[k as int]@);
        assert(views[k as int] == keys@[k as int]@);
        let ghost before = r@;
        proof {
            reveal(Seq::filter);
        }
        assert(views.take(k + 1).filter(keep) == if keep(keys@[k as int]@) {
            views.take(k as int).filter(keep).push(keys@[k as int]@)
        } else {
            views.take(k as int).filter(keep)
        });
        if counts[k] >= min_occurs {
            assert(keep(keys@[k as int]@));
            let w = keys[k].clone();
            r.push(w);
            assert(r@.map_values(|t: String| t@) =~= before.map_values(|t: String| t@).push(keys@[k as int]@));
        } else {
            assert(!keep(keys@[k as int]@));
        }
        k = k + 1;
    }
    assert(views.take(views.len() as int) =~= views);
    r
}

/// The position that the `nth` call draws in a vocabulary of `n` words: the
/// last of `nth + 1` uniform draws in `0..n` from a generator seeded with
/// `seed`.
pub open spec fn nth_draw(seed: Seq<u8>, n: nat, nth: nat) -> nat {
    range_draw_of(seed, Seq::new(nth + 1, |k: int| n))
}

/// The word that call number `nth` picks for user `uname` under `secret`, or
/// `None` where the vocabulary is empty.
pub open spec fn picked_word(
    secret: Seq<char>,
    uname: Seq<char>,
    lines: Seq<Seq<char>>,
    min_occurs: nat,
    min_length: nat,
    nth: nat,
) -> Option<Seq<char>> {
    let words = vocabulary(lines, min_occurs, min_length);
    if words.len() == 0 {
        None
    } else {
        Some(words[nth_draw(sha256_of(seed_bytes(uname, secret)), words.len(), nth) as int])
    }
}

/// Draws `nth + 1` times in `0..n` from a generator seeded with `seed` and
/// returns the last draw.
pub fn draw_target(seed: [u8; 32], n: usize, nth: usize) -> (r: usize)
    requires
        n > 0,
    ensures
        r as nat == nth_draw(seed@, n as nat, nth as nat),
        r < n,
{
    let mut g = Generator::from_seed(seed);
    let mut target = g.gen_below(n);
    assert(g.bounds() =~= Seq::new(1, |k: int| n as nat));
    let mut done: usize = 0;
    while done < nth
        invariant
            done <= nth,
            g.seed() == seed@,
            g.bounds() == Seq::new(done as nat + 1, |k: int| n as nat),
            target as nat == range_draw_of(seed@, g.bounds()),
            target < n,
            n > 0,
        decreases nth - done,
    {
        target = g.gen_below(n);
        assert(g.bounds() =~= Seq::new(done as nat + 2, |k: int| n as nat));
        done = done + 1;
    }
    target
}

/// Picks one word of the corpus for user `uname` under `secret`: the word
/// that `nth_random_word` draws select among the vocabulary of words of at
/// least `min_length` bytes occurring at least `min_occurs` times. Fails
/// with `EmptySelection` exactly when that vocabulary is empty.
pub fn pick_random_word(
    secret: &str,
    lines: &Vec<String>,
    uname: &str,
    min_occurs: usize,
    min_length: usize,
    nth_random_word: usize,
) -> (r: Result<String, Error>)
    ensures
        r is Ok <==> vocabulary(text_lines(lines@), min_occurs as nat, min_length as nat).len() > 0,
        r matches Ok(w) ==> picked_word(
            secret@,
            uname@,
            text_lines(lines@),
            min_occurs as nat,
            min_length as nat,
            nth_random_word as nat,
        ) == Some(w@),
        r matches Err(e) ==> e is EmptySelection,
{
    let words = frequent_words(lines, min_occurs, min_length);
    let ghost views = words@.map_values(|w: String| w@);
    assert(views.len() == words@.len());
    if words.len() == 0 {
        return Err(Error::EmptySelection);
    }
    let target = draw_target(seed(uname, secret), words.len(), nth_random_word);
    let chosen = words[target].clone();
    assert(views[target as int] == words@[target as int]@);
    Ok(chosen)
}

} // verus!
