//! The naive strategy: a full re-scan prune each turn, then the candidate
//! with the greatest frequency weight, earliest entry winning ties.
//!
//! The ranking policy is deliberately integral — the prior frequency weight
//! stands in for a floating-point expected-information score — so the whole
//! selection stays inside the verified core, and the tie-break (first
//! dictionary entry wins) keeps game traces reproducible.

use vstd::prelude::*;
use crate::guess::{Guess, Guesser, consistent_with_last, matches_spec, wf_history};
use crate::mask::wf_word;
use crate::store::{DictEntry, distinct_words, prune, prune_spec, wf_entries, wf_indices,
    lemma_prune_keeps, lemma_prune_subset};
use vstd::slice::slice_index_get;

verus! {

/// The pick of the ranking policy: the first candidate whose frequency
/// weight no other candidate exceeds.
pub open spec fn is_pick(words: Seq<DictEntry>, rem: Seq<usize>, p: int) -> bool {
    &&& 0 <= p < rem.len()
    &&& forall|k: int|
        0 <= k < rem.len() ==> words[#[trigger] rem[k] as int].count <= words[rem[p] as int].count
    &&& forall|k: int| 0 <= k < p ==> words[#[trigger] rem[k] as int].count < words[rem[p] as int].count
}

/// A strategy that keeps the full dictionary and, each turn, re-scans it to
/// drop the candidates inconsistent with the latest feedback.
pub struct Naive {
    words: Vec<DictEntry>,
    remaining: Vec<usize>,
}

impl Naive {
    /// The dictionary entries this strategy was built over.
    pub closed spec fn entries(&self) -> Seq<DictEntry> {
        self.words@
    }

    /// The indices of the words still considered possible answers.
    pub closed spec fn ids(&self) -> Seq<usize> {
        self.remaining@
    }

    /// Builds the strategy with every dictionary entry still a candidate.
    pub fn new(words: Vec<DictEntry>) -> (r: Self)
        requires
            wf_entries(words@),
            distinct_words(words@),
        ensures
            r.wf(),
            r.entries() == words@,
            r.ids().len() == words@.len(),
            forall|j: int| 0 <= j < words@.len() ==> #[trigger] r.ids()[j] as int == j,
            forall|c: Seq<char>|
                #[trigger] r.has(c) <==> (exists|i: int|
                    0 <= i < words@.len() && #[trigger] words@[i].word@ == c),
    {
        let mut remaining: Vec<usize> = Vec::new();
        let mut i: usize = 0;
        while i < words.len()
            invariant
                i <= words@.len(),
                remaining@.len() == i,
                forall|j: int| 0 <= j < i ==> #[trigger] remaining@[j] == j,
            decreases words@.len() - i,
        {
            remaining.push(i);
            i = i + 1;
        }
        let r = Naive { words, remaining };
        proof {
            assert forall|c: Seq<char>| #[trigger] r.has(c) implies (exists|i: int|
                0 <= i < r.entries().len() && #[trigger] r.entries()[i].word@ == c) by {
                let j = choose|j: int|
                    0 <= j < r.ids().len() && r.entries()[r.ids()[j] as int].word@ == c;
                assert(r.entries()[r.ids()[j] as int].word@ == c);
            }
            assert forall|c: Seq<char>|
                (exists|i: int| 0 <= i < r.entries().len() && #[trigger] r.entries()[i].word@ == c)
                implies #[trigger] r.has(c) by {
                let i = choose|i: int|
                    0 <= i < r.entries().len() && r.entries()[i].word@ == c;
                assert(r.ids()[i] == i);
                assert(r.entries()[r.ids()[i] as int].word@ == c);
            }
        }
        r
    }

    /// Prunes the candidates by the latest feedback, then returns the word
    /// of the first candidate with the greatest frequency weight.
    pub fn next_guess(&mut self, history: &[Guess]) -> (w: String)
        requires
            old(self).wf(),
            wf_history(history@),
            exists|c: Seq<char>|
                #[trigger] old(self).has(c) && consistent_with_last(history@, c),
        ensures
            final(self).wf(),
            final(self).entries() == old(self).entries(),
            final(self).ids() == (if history@.len() == 0 {
                old(self).ids()
            } else {
                prune_spec(
                    old(self).entries(),
                    old(self).ids(),
                    history@.last().word@,
                    history@.last().mask@,
                )
            }),
            final(self).ids().len() <= old(self).ids().len(),
            wf_word(w@),
            final(self).has(w@),
            exists|p: int| #[trigger] is_pick(final(self).entries(), final(self).ids(), p) && w@ == final(self).entries()[final(self).ids()[p] as int].word@,
            forall|c: Seq<char>| #[trigger] final(self).has(c) ==> old(self).has(c),
            forall|c: Seq<char>| (#[trigger] old(self).has(c) && consistent_with_last(history@, c)) ==> final(self).has(c),
    {
        let ghost pre = *self;
        if history.len() > 0 {
            let last = slice_index_get(history, history.len() - 1);
            let new_rem = prune(&self.words, &self.remaining, last);
            self.remaining = new_rem;
            proof {
                let gw = history@.last().word@;
                let gm = history@.last().mask@;
                let pruned = prune_spec(pre.entries(), pre.ids(), gw, gm);
                assert(self.ids() == pruned);
                lemma_prune_subset(pre.entries(), pre.ids(), gw, gm);
                assert forall|j: int| 0 <= j < self.ids().len() implies #[trigger] self.ids()[j]
                    < self.entries().len() by {
                    assert(pruned.contains(pruned[j]));
                    assert(pre.ids().contains(pruned[j]));
                    let i = choose|i: int| 0 <= i < pre.ids().len() && pre.ids()[i] == pruned[j];
                    assert(pre.ids()[i] < pre.entries().len());
                }
                assert forall|c: Seq<char>| #[trigger] self.has(c) implies pre.has(c) by {
                    let j = choose|j: int|
                        0 <= j < self.ids().len() && self.entries()[self.ids()[j] as int].word@
                            == c;
                    assert(pruned.contains(pruned[j]));
                    assert(pre.ids().contains(pruned[j]));
                    let i = choose|i: int| 0 <= i < pre.ids().len() && pre.ids()[i] == pruned[j];
                    assert(pre.entries()[pre.ids()[i] as int].word@ == c);
                }
                assert forall|c: Seq<char>|
                    (#[trigger] pre.has(c) && consistent_with_last(history@, c)) implies self.has(
                    c,
                ) by {
                    let j = choose|j: int|
                        0 <= j < pre.ids().len() && pre.entries()[pre.ids()[j] as int].word@ == c;
                    assert(matches_spec(gw, gm, pre.entries()[pre.ids()[j] as int].word@));
                    lemma_prune_keeps(pre.entries(), pre.ids(), gw, gm, j);
                    assert(pruned.contains(pre.ids()[j]));
                    let q = choose|q: int| 0 <= q < pruned.len() && pruned[q] == pre.ids()[j];
                    assert(self.ids()[q] == pre.ids()[j]);
                    assert(self.entries()[self.ids()[q] as int].word@ == c);
                }
            }
        }
        proof {
            let c = choose|c: Seq<char>| pre.has(c) && consistent_with_last(history@, c);
            assert(self.has(c));
        }
        let mut best: usize = 0;
        let mut j: usize = 1;
        while j < self.remaining.len()
            invariant
                self.wf(),
                self.ids().len() > 0,
                best < j <= self.ids().len(),
                forall|k: int|
                    0 <= k < j ==> self.entries()[#[trigger] self.ids()[k] as int].count
                        <= self.entries()[self.ids()[best as int] as int].count,
                forall|k: int|
                    0 <= k < best ==> self.entries()[#[trigger] self.ids()[k] as int].count
                        < self.entries()[self.ids()[best as int] as int].count,
            decreases self.ids().len() - j,
        {
            let idx_j = self.remaining[j];
            let idx_b = self.remaining[best];
            if self.words[idx_j].count > self.words[idx_b].count {
                best = j;
            }
            j = j + 1;
        }
        proof {
            assert(is_pick(self.entries(), self.ids(), best as int));
        }
        let idx = self.remaining[best];
        let w = self.words[idx].word.clone();
        proof {
            assert(self.entries()[self.ids()[best as int] as int].word@ == w@);
        }
        w
    }
}

impl Guesser for Naive {
    closed spec fn wf(&self) -> bool {
        &&& wf_entries(self.words@)
        &&& distinct_words(self.words@)
        &&& wf_indices(self.words@, self.remaining@)
    }

    closed spec fn has(&self, w: Seq<char>) -> bool {
        exists|j: int|
            0 <= j < self.remaining@.len() && self.words@[#[trigger] self.remaining@[j] as int].word@
                == w
    }

    fn guess(&mut self, history: &[Guess]) -> (w: String) {
        self.next_guess(history)
    }
}

} // verus!
