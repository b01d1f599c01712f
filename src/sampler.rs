//! The line sampler: a reproducible subset of the corpus lines for one user.

use vstd::prelude::*;
use vstd::string::StringExecFns;
use crate::digest::{seed, seed_bytes, sha256_of};
use crate::generator::{index_sample_of, Generator};

verus! {

/// How many lines a sample of `size` lines holds in a corpus of `nb_lines`
/// lines: a request for more lines than exist gets every line.
pub open spec fn sample_amount(nb_lines: nat, size: nat) -> nat {
    if size <= nb_lines { size } else { nb_lines }
}

/// The line indices drawn for user `uname` under `secret`, in the order the
/// generator produced them.
pub open spec fn drawn_indices(secret: Seq<char>, uname: Seq<char>, nb_lines: nat, size: nat) -> Seq<usize> {
    index_sample_of(
        sha256_of(seed_bytes(uname, secret)),
        Seq::empty(),
        nb_lines,
        sample_amount(nb_lines, size),
    )
}

/// The set of positions that a sequence of indices holds.
pub open spec fn index_set(s: Seq<usize>) -> Set<int> {
    Set::new(|i: int| exists|k: int| 0 <= k < s.len() && s[k] as int == i)
}

/// The text of each line.
pub open spec fn text_lines(lines: Seq<String>) -> Seq<Seq<char>> {
    lines.map_values(|s: String| s@)
}

/// The lines whose position is in `chosen`, in file order, each followed by
/// a newline.
pub open spec fn emitted(lines: Seq<Seq<char>>, chosen: Set<int>) -> Seq<char>
    decreases lines.len(),
{
    if lines.len() == 0 {
        Seq::empty()
    } else {
        let last = lines.len() - 1;
        emitted(lines.drop_last(), chosen) + if chosen.contains(last) {
            lines[last].push('\n')
        } else {
            Seq::empty()
        }
    }
}

/// The sub-corpus of user `uname` under `secret`: the lines at the drawn
/// positions, in file order.
pub open spec fn corpus_sample(secret: Seq<char>, uname: Seq<char>, lines: Seq<Seq<char>>, size: nat) -> Seq<char> {
    emitted(lines, index_set(drawn_indices(secret, uname, lines.len(), size)))
}

/// Strictly increasing.
pub open spec fn ascending(s: Seq<usize>) -> bool {
    forall|a: int, b: int| 0 <= a < b < s.len() ==> s[a] < s[b]
}

/// The positions of the lines that go into the sub-corpus of user `uname`
/// under `secret`, in ascending order: `min(size, nb_lines)` distinct
/// positions below `nb_lines`.
pub fn sample(secret: &str, nb_lines: usize, uname: &str, size: usize) -> (r: Vec<usize>)
    ensures
        ascending(r@),
        index_set(r@) == index_set(drawn_indices(secret@, uname@, nb_lines as nat, size as nat)),
        r@.len() == sample_amount(nb_lines as nat, size as nat),
        forall|k: int| 0 <= k < r@.len() ==> r@[k] < nb_lines,
{
    let amount = if size <= nb_lines { size } else { nb_lines };
    let g = Generator::from_seed(seed(uname, secret));
    let drawn = g.sample_indices(nb_lines, amount);
    assert(drawn@ == drawn_indices(secret@, uname@, nb_lines as nat, size as nat));

    let mut mask: Vec<bool> = Vec::new();
    let mut i: usize = 0;
    while i < nb_lines
        invariant
            i <= nb_lines,
            mask@.len() == i,
            forall|t: int| 0 <= t < i ==> !mask@[t],
        decreases nb_lines - i,
    {
        mask.push(false);
        i = i + 1;
    }

    let mut k: usize = 0;
    while k < drawn.len()
        invariant
            k <= drawn@.len(),
            mask@.len() == nb_lines,
            forall|j: int| 0 <= j < drawn@.len() ==> drawn@[j] < nb_lines,
            forall|t: int| 0 <= t < nb_lines ==>
                (mask@[t] <==> exists|j: int| 0 <= j < k && drawn@[j] as int == t),
        decreases drawn@.len() - k,
    {
        let d = drawn[k];
        mask.set(d, true);
        assert forall|t: int| 0 <= t < nb_lines implies
            (mask@[t] <==> exists|j: int| 0 <= j < k + 1 && drawn@[j] as int == t) by {
            if t == d as int {
                assert(drawn@[k as int] as int == t);
            }
        }
        k = k + 1;
    }

    let mut r: Vec<usize> = Vec::new();
    let mut p: usize = 0;
    while p < nb_lines
        invariant
            p <= nb_lines,
            mask@.len() == nb_lines,
            ascending(r@),
            forall|j: int| 0 <= j < r@.len() ==> r@[j] < p,
            forall|t: int| 0 <= t < nb_lines ==>
                (mask@[t] <==> exists|j: int| 0 <= j < drawn@.len() && drawn@[j] as int == t),
            forall|t: int| 0 <= t < p ==> (mask@[t] <==> r@.contains(t as usize)),
            forall|x: usize| #[trigger] r@.contains(x) ==> x < p,
        decreases nb_lines - p,
    {
        let ghost before = r@;
        if mask[p] {
            r.push(p);
            assert(r@.last() == p);
            assert forall|x: usize| r@.contains(x) <==> (before.contains(x) || x == p) by {
                if before.contains(x) {
                    let j = choose|j: int| 0 <= j < before.len() && before[j] == x;
                    assert(r@[j] == x);
                }
                if r@.contains(x) && x != p {
                    let j = choose|j: int| 0 <= j < r@.len() && r@[j] == x;
                    assert(j < before.len());
                    assert(before[j] == x);
                }
            }
        }
        assert forall|x: usize| #[trigger] r@.contains(x) implies x < p + 1 by {
            let j = choose|j: int| 0 <= j < r@.len() && r@[j] == x;
            assert(r@[j] < p + 1);
        }
        assert forall|t: int| 0 <= t < p + 1 implies (mask@[t] <==> r@.contains(t as usize)) by {
            if t == p as int && mask@[t] {
                assert(r@[r@.len() - 1] == p);
            }
        }
        p = p + 1;
    }

    proof {
        let target = drawn_indices(secret@, uname@, nb_lines as nat, size as nat);
        assert(index_set(r@) =~= index_set(target)) by {
            assert forall|i: int| index_set(r@).contains(i) implies index_set(target).contains(i) by {
                let j = choose|j: int| 0 <= j < r@.len() && r@[j] as int == i;
                assert(r@.contains(r@[j]));
                assert(0 <= i < nb_lines);
                assert(mask@[i]);
            }
            assert forall|i: int| index_set(target).contains(i) implies index_set(r@).contains(i) by {
                let j = choose|j: int| 0 <= j < target.len() && target[j] as int == i;
                assert(mask@[i]);
                assert(r@.contains(i as usize));
            }
        }
        assert(r@.no_duplicates()) by {
            assert forall|a: int, b: int| 0 <= a < r@.len() && 0 <= b < r@.len() && a != b implies r@[a] != r@[b] by {
                if a < b {
                    assert(r@[a] < r@[b]);
                } else {
                    assert(r@[b] < r@[a]);
                }
            }
        }
        assert(r@.to_set() =~= drawn@.to_set()) by {
            assert forall|x: usize| r@.to_set().contains(x) implies drawn@.to_set().contains(x) by {
                assert(r@.contains(x));
                assert(x < nb_lines);
                assert(mask@[x as int]);
            }
            assert forall|x: usize| drawn@.to_set().contains(x) implies r@.to_set().contains(x) by {
                let j = choose|j: int| 0 <= j < drawn@.len() && drawn@[j] == x;
                assert(mask@[x as int]);
            }
        }
        r@.unique_seq_to_set();
        drawn@.unique_seq_to_set();
    }
    r
}

proof fn lemma_emitted_step(lines: Seq<Seq<char>>, chosen: Set<int>, i: int)
    requires
        0 <= i < lines.len(),
    ensures
        emitted(lines.take(i + 1), chosen) == emitted(lines.take(i), chosen) + if chosen.contains(i) {
            lines[i].push('\n')
        } else {
            Seq::empty()
        },
{
    assert(lines.take(i + 1).drop_last() =~= lines.take(i));
}

proof fn lemma_emitted_rest(lines: Seq<Seq<char>>, chosen: Set<int>, i: int)
    requires
        0 <= i <= lines.len(),
        forall|j: int| i <= j < lines.len() ==> !chosen.contains(j),
    ensures
        emitted(lines, chosen) == emitted(lines.take(i), chosen),
    decreases lines.len() - i,
{
    if i < lines.len() {
        lemma_emitted_step(lines, chosen, i);
        lemma_emitted_rest(lines, chosen, i + 1);
    } else {
        assert(lines.take(i) =~= lines);
    }
}

/// The sub-corpus of user `uname` under `secret`: `min(size, lines.len())`
/// lines drawn without replacement, in corpus order, each followed
/// by a newline.
pub fn gen_corpus_data(secret: &str, lines: &Vec<String>, uname: &str, size: usize) -> (r: String)
    ensures
        r@ == corpus_sample(secret@, uname@, text_lines(lines@), size as nat),
{
    let idx = sample(secret, lines.len(), uname, size);
    let ghost text = text_lines(lines@);
    let ghost chosen = index_set(idx@);
    let mut corpus = String::new();
    let mut k: usize = 0;
    let mut i: usize = 0;
    while i < lines.len() && k < idx.len()
        invariant
            i <= lines@.len(),
            k <= idx@.len(),
            text == text_lines(lines@),
            chosen == index_set(idx@),
            ascending(idx@),
            forall|t: int| 0 <= t < k ==> idx@[t] < i,
            forall|t: int| k <= t < idx@.len() ==> idx@[t] >= i,
            corpus@ == emitted(text.take(i as int), chosen),
        decreases lines@.len() - i,
    {
        proof {
            lemma_emitted_step(text, chosen, i as int);
        }
        if idx[k] == i {
            assert(chosen.contains(i as int));
            let ghost before = corpus@;
            assert(text[i as int] == lines@[i as int]@);
            let line: &str = lines[i].as_str();
            assert(line@ == text[i as int]);
            corpus.append(line);
            let nl: &str = "\n";
            proof {
                reveal_strlit("\n");
            }
            assert(nl@ =~= seq!['\n']);
            corpus.append(nl);
            assert(corpus@ =~= before + text[i as int].push('\n'));
            k = k + 1;
        } else {
            assert(!chosen.contains(i as int)) by {
                if chosen.contains(i as int) {
                    let t = choose|t: int| 0 <= t < idx@.len() && idx@[t] as int == i as int;
                    if t > k {
                        assert(idx@[k as int] < idx@[t]);
                    }
                }
            }
        }
        i = i + 1;
    }
    proof {
        assert forall|j: int| i <= j < text.len() implies !chosen.contains(j) by {
            if chosen.contains(j) {
                let t = choose|t: int| 0 <= t < idx@.len() && idx@[t] as int == j;
                assert(t < k);
            }
        }
        lemma_emitted_rest(text, chosen, i as int);
    }
    corpus
}

} // verus!
