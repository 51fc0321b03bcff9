//! A recorded guess with its feedback, the consistency test that pruning is
//! built on, and the capability a guessing strategy must offer.

use vstd::prelude::*;
use crate::mask::{Correctness, get_letter_freq, mask_spec, wf_word};

verus! {

/// One past turn: the guessed word and the feedback it received.
pub struct Guess {
    pub word: String,
    pub mask: [Correctness; 5],
}

/// A word is consistent with a recorded guess when, taken as the hypothetical
/// answer, it would have produced exactly the recorded feedback.
pub open spec fn matches_spec(gw: Seq<char>, gm: Seq<Correctness>, w: Seq<char>) -> bool {
    mask_spec(w, gw) == gm
}

/// Every recorded guess in a history is a well-formed word.
pub open spec fn wf_history(h: Seq<Guess>) -> bool {
    forall|i: int| 0 <= i < h.len() ==> wf_word(#[trigger] h[i].word@)
}

/// A word is consistent with the last entry of a history (trivially so when
/// the history is empty).
pub open spec fn consistent_with_last(h: Seq<Guess>, w: Seq<char>) -> bool {
    h.len() == 0 || matches_spec(h.last().word@, h.last().mask@, w)
}

impl Guess {
    /// Re-runs the evaluator with `word` as the hypothetical answer and
    /// reports whether it reproduces this guess's recorded feedback.
    pub fn matches(&self, word: &str) -> (b: bool)
        requires
            wf_word(self.word@),
            wf_word(word@),
        ensures
            b == matches_spec(self.word@, self.mask@, word@),
    {
        let freq = get_letter_freq(word);
        let computed = Correctness::compute(word, self.word.as_str(), &freq);
        let mut i: usize = 0;
        while i < 5
            invariant
                i <= 5,
                computed@ == mask_spec(word@, self.word@),
                forall|j: int| 0 <= j < i ==> #[trigger] computed@[j] == self.mask@[j],
            decreases 5 - i,
        {
            let c1 = computed[i];
            let c2 = self.mask[i];
            if c1 != c2 {
                proof {
                    assert(computed@[i as int] != self.mask@[i as int]);
                }
                return false;
            }
            i = i + 1;
        }
        proof {
            assert(computed@ =~= self.mask@);
        }
        true
    }
}

/// Reports whether two well-formed words hold the same letters.
pub fn words_equal(a: &str, b: &str) -> (r: bool)
    requires
        wf_word(a@),
        wf_word(b@),
    ensures
        r == (a@ == b@),
{
    let mut i: usize = 0;
    while i < 5
        invariant
            wf_word(a@),
            wf_word(b@),
            i <= 5,
            forall|j: int| 0 <= j < i ==> a@[j] == b@[j],
        decreases 5 - i,
    {
        if a.get_char(i) != b.get_char(i) {
            return false;
        }
        i = i + 1;
    }
    proof {
        assert(a@ =~= b@);
    }
    true
}

/// The one capability a guessing strategy must offer: produce the next guess
/// from the history of past turns.
///
/// `has` is the strategy's candidate set. A call may only shrink it, must
/// keep every candidate consistent with the latest feedback, and must return
/// a current candidate — so a caller that knows the true answer is a
/// candidate, and hands back genuine feedback, keeps it one.
pub trait Guesser {
    spec fn wf(&self) -> bool;

    spec fn has(&self, w: Seq<char>) -> bool;

    fn guess(&mut self, history: &[Guess]) -> (w: String)
        requires
            old(self).wf(),
            wf_history(history@),
            exists|c: Seq<char>| #[trigger] old(self).has(c) && consistent_with_last(history@, c),
        ensures
            final(self).wf(),
            wf_word(w@),
            final(self).has(w@),
            forall|c: Seq<char>| #[trigger] final(self).has(c) ==> old(self).has(c),
            forall|c: Seq<char>|
                (#[trigger] old(self).has(c) && consistent_with_last(history@, c)) ==> final(self).has(c),
    ;
}

} // verus!
