//! The candidate store: dictionary entries, index-based candidate sets, and
//! the pruning step that removes words inconsistent with the latest feedback.

use vstd::prelude::*;
use crate::guess::{Guess, matches_spec};
use crate::mask::{Correctness, is_lower, mask_spec, wf_word};

verus! {

/// One dictionary entry: a five-letter word with its prior frequency weight.
pub struct DictEntry {
    pub word: String,
    pub count: usize,
}

/// Every entry of a dictionary holds a well-formed word.
pub open spec fn wf_entries(words: Seq<DictEntry>) -> bool {
    forall|i: int| 0 <= i < words.len() ==> wf_word(#[trigger] words[i].word@)
}

/// No two dictionary entries hold the same word.
pub open spec fn distinct_words(words: Seq<DictEntry>) -> bool {
    forall|i: int, j: int|
        0 <= i < j < words.len() ==> (#[trigger] words[i].word@) != (#[trigger] words[j].word@)
}

/// Every candidate index points into the dictionary.
pub open spec fn wf_indices(words: Seq<DictEntry>, rem: Seq<usize>) -> bool {
    forall|j: int| 0 <= j < rem.len() ==> #[trigger] rem[j] < words.len()
}

/// The candidate indices that survive pruning with the feedback `(gw, gm)`:
/// exactly those whose word, taken as the hypothetical answer, reproduces
/// that feedback. Order and multiplicity are kept.
pub open spec fn prune_spec(
    words: Seq<DictEntry>,
    rem: Seq<usize>,
    gw: Seq<char>,
    gm: Seq<Correctness>,
) -> Seq<usize>
    decreases rem.len(),
{
    if rem.len() == 0 {
        Seq::empty()
    } else {
        let rest = prune_spec(words, rem.drop_last(), gw, gm);
        if matches_spec(gw, gm, words[rem.last() as int].word@) {
            rest.push(rem.last())
        } else {
            rest
        }
    }
}

/// Pruning never grows the candidate set.
pub proof fn lemma_prune_len(
    words: Seq<DictEntry>,
    rem: Seq<usize>,
    gw: Seq<char>,
    gm: Seq<Correctness>,
)
    ensures
        prune_spec(words, rem, gw, gm).len() <= rem.len(),
    decreases rem.len(),
{
    if rem.len() > 0 {
        lemma_prune_len(words, rem.drop_last(), gw, gm);
    }
}

/// Pruning never adds: every surviving index was a candidate before.
pub proof fn lemma_prune_subset(
    words: Seq<DictEntry>,
    rem: Seq<usize>,
    gw: Seq<char>,
    gm: Seq<Correctness>,
)
    ensures
        forall|x: usize| prune_spec(words, rem, gw, gm).contains(x) ==> rem.contains(x),
    decreases rem.len(),
{
    if rem.len() > 0 {
        lemma_prune_subset(words, rem.drop_last(), gw, gm);
        assert forall|x: usize| prune_spec(words, rem, gw, gm).contains(x) implies rem.contains(
            x,
        ) by {
            let out = prune_spec(words, rem, gw, gm);
            let rest = prune_spec(words, rem.drop_last(), gw, gm);
            let k = choose|k: int| 0 <= k < out.len() && out[k] == x;
            if k < rest.len() {
                assert(rest[k] == x);
                assert(rest.contains(x));
                assert(rem.drop_last().contains(x));
                let i = choose|i: int| 0 <= i < rem.drop_last().len() && rem.drop_last()[i] == x;
                assert(rem[i] == x);
            } else {
                assert(x == rem.last());
                assert(rem[rem.len() - 1] == x);
            }
        }
    }
}

/// Idempotence of pruning: when every candidate is already consistent with
/// the feedback, pruning leaves the candidate set unchanged.
pub proof fn lemma_prune_idempotent(
    words: Seq<DictEntry>,
    rem: Seq<usize>,
    gw: Seq<char>,
    gm: Seq<Correctness>,
)
    requires
        wf_indices(words, rem),
        forall|j: int|
            0 <= j < rem.len() ==> matches_spec(gw, gm, words[#[trigger] rem[j] as int].word@),
    ensures
        prune_spec(words, rem, gw, gm) == rem,
    decreases rem.len(),
{
    if rem.len() > 0 {
        lemma_prune_idempotent(words, rem.drop_last(), gw, gm);
        assert(prune_spec(words, rem, gw, gm) =~= rem);
    }
}

/// Every candidate consistent with the feedback survives pruning.
pub proof fn lemma_prune_keeps(
    words: Seq<DictEntry>,
    rem: Seq<usize>,
    gw: Seq<char>,
    gm: Seq<Correctness>,
    i: int,
)
    requires
        0 <= i < rem.len(),
        matches_spec(gw, gm, words[rem[i] as int].word@),
    ensures
        prune_spec(words, rem, gw, gm).contains(rem[i]),
    decreases rem.len(),
{
    if i == rem.len() - 1 {
        let out = prune_spec(words, rem, gw, gm);
        assert(out.last() == rem[i]);
    } else {
        lemma_prune_keeps(words, rem.drop_last(), gw, gm, i);
        let rest = prune_spec(words, rem.drop_last(), gw, gm);
        let j = choose|j: int| 0 <= j < rest.len() && rest[j] == rem.drop_last()[i];
        assert(prune_spec(words, rem, gw, gm)[j] == rem[i]);
    }
}

/// Soundness of the filter: a word's own feedback always keeps that word.
/// If the true answer is a candidate before a prune that uses feedback
/// derived from that same answer, it is still a candidate afterwards.
pub proof fn lemma_prune_sound(
    words: Seq<DictEntry>,
    rem: Seq<usize>,
    answer: Seq<char>,
    gw: Seq<char>,
    i: int,
)
    requires
        0 <= i < rem.len(),
        words[rem[i] as int].word@ == answer,
    ensures
        prune_spec(words, rem, gw, mask_spec(answer, gw)).contains(rem[i]),
{
    lemma_prune_keeps(words, rem, gw, mask_spec(answer, gw), i);
}

/// Removes every candidate that would not have produced `last`'s feedback,
/// returning the surviving indices in order.
pub fn prune(words: &Vec<DictEntry>, rem: &Vec<usize>, last: &Guess) -> (out: Vec<usize>)
    requires
        wf_entries(words@),
        wf_indices(words@, rem@),
        wf_word(last.word@),
    ensures
        out@ == prune_spec(words@, rem@, last.word@, last.mask@),
        out@.len() <= rem@.len(),
{
    let mut out: Vec<usize> = Vec::new();
    let mut j: usize = 0;
    while j < rem.len()
        invariant
            wf_entries(words@),
            wf_indices(words@, rem@),
            wf_word(last.word@),
            j <= rem@.len(),
            out@ == prune_spec(words@, rem@.take(j as int), last.word@, last.mask@),
        decreases rem@.len() - j,
    {
        let idx = rem[j];
        let e = &words[idx];
        proof {
            assert(rem@.take(j + 1).drop_last() =~= rem@.take(j as int));
            assert(rem@.take(j + 1).last() == rem@[j as int]);
        }
        if last.matches(e.word.as_str()) {
            out.push(idx);
        }
        j = j + 1;
    }
    proof {
        assert(rem@.take(rem@.len() as int) =~= rem@);
        lemma_prune_len(words@, rem@, last.word@, last.mask@);
    }
    out
}

/// Reports whether a string is a well-formed word: exactly five lowercase
/// ASCII letters.
pub fn check_word(s: &str) -> (r: bool)
    ensures
        r == wf_word(s@),
{
    let n = s.unicode_len();
    if n != 5 {
        return false;
    }
    let mut i: usize = 0;
    while i < 5
        invariant
            s@.len() == 5,
            i <= 5,
            forall|j: int| 0 <= j < i ==> is_lower(#[trigger] s@[j]),
        decreases 5 - i,
    {
        let c = s.get_char(i);
        let v = c as u32;
        if v < 97 || v > 122 {
            return false;
        }
        i = i + 1;
    }
    true
}

} // verus!
