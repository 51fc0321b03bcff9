//! The game runner: drives one game of guess and feedback against a hidden
//! answer, under a fixed turn budget.

use vstd::prelude::*;
use crate::guess::{Guess, Guesser, consistent_with_last, matches_spec, wf_history, words_equal};
use crate::mask::{Correctness, freq_ok, get_letter_freq, mask_spec, wf_word};

verus! {

/// The guess budget for one game. Larger than the canonical six-guess rule,
/// so that score distributions beyond a strict win/loss cutoff can be
/// measured.
pub const TURN_BUDGET: usize = 32;

/// Whether the answer `a` is the strategy's one remaining candidate.
pub open spec fn only_candidate<G: Guesser>(g: G, a: Seq<char>) -> bool {
    forall|c: Seq<char>| #[trigger] g.has(c) ==> c == a
}

/// The known dictionary one game is played over.
pub struct Wordle {
    dictionary: Vec<String>,
}

impl Wordle {
    /// Every dictionary word is well-formed.
    pub closed spec fn wf(&self) -> bool {
        forall|i: int| 0 <= i < self.dictionary@.len() ==> wf_word(#[trigger] self.dictionary@[i]@)
    }

    /// Whether `w` is a word of the dictionary.
    pub closed spec fn in_dictionary(&self, w: Seq<char>) -> bool {
        exists|i: int| 0 <= i < self.dictionary@.len() && #[trigger] self.dictionary@[i]@ == w
    }

    /// Builds a game over the given dictionary words.
    pub fn new(words: Vec<String>) -> (r: Self)
        requires
            forall|i: int| 0 <= i < words@.len() ==> wf_word(#[trigger] words@[i]@),
        ensures
            r.wf(),
            forall|w: Seq<char>|
                #[trigger] r.in_dictionary(w) <==> (exists|i: int|
                    0 <= i < words@.len() && #[trigger] words@[i]@ == w),
    {
        let ghost ws = words@;
        let r = Wordle { dictionary: words };
        proof {
            assert forall|w: Seq<char>| #[trigger] r.in_dictionary(w) implies (exists|i: int|
                0 <= i < ws.len() && #[trigger] ws[i]@ == w) by {
                let i = choose|i: int|
                    0 <= i < r.dictionary@.len() && #[trigger] r.dictionary@[i]@ == w;
                assert(ws[i]@ == w);
            }
            assert forall|w: Seq<char>|
                (exists|i: int| 0 <= i < ws.len() && #[trigger] ws[i]@ == w) implies
                #[trigger] r.in_dictionary(w) by {
                let i = choose|i: int| 0 <= i < ws.len() && ws[i]@ == w;
                assert(r.dictionary@[i]@ == w);
            }
        }
        r
    }

    /// Plays one game: asks the strategy for a guess, scores it against the
    /// hidden answer, appends the feedback to the history, and repeats until
    /// the answer is hit (the turn count, starting at 1) or the budget is
    /// exhausted (no result — a loss, not an error).
    ///
    /// The preconditions encode the fatal error taxonomy statically: the
    /// strategy's candidates all lie in the known dictionary (so no
    /// out-of-vocabulary guess can ever be scored), and the answer itself is
    /// a candidate (so the candidate store can never be pruned empty, since
    /// feedback is only ever derived from that answer).
    ///
    /// The strategy is consumed and its calls leave no trace in the
    /// signature, so the contract pins the outcome where the trait contract
    /// alone forces one: a candidate set that holds nothing but the answer
    /// must win on the first turn.
    #[verifier::loop_isolation(false)]
    pub fn play<G: Guesser>(&self, answer: &str, guesser: G) -> (r: Option<usize>)
        requires
            self.wf(),
            wf_word(answer@),
            guesser.wf(),
            guesser.has(answer@),
            forall|c: Seq<char>| #[trigger] guesser.has(c) ==> self.in_dictionary(c),
        ensures
            r matches Some(n) ==> 1 <= n <= TURN_BUDGET,
            only_candidate(guesser, answer@) ==> r == Some(1usize),
    {
        let answer_letter_freq = get_letter_freq(answer);
        let ghost g0 = guesser;
        let mut guesser = guesser;
        let mut history: Vec<Guess> = Vec::new();
        let mut turn: usize = 1;
        while turn <= TURN_BUDGET
            invariant
                self.wf(),
                wf_word(answer@),
                freq_ok(answer@, answer_letter_freq@),
                1 <= turn <= TURN_BUDGET + 1,
                guesser.wf(),
                guesser.has(answer@),
                forall|c: Seq<char>| #[trigger] guesser.has(c) ==> self.in_dictionary(c),
                forall|c: Seq<char>| #[trigger] guesser.has(c) ==> g0.has(c),
                only_candidate(g0, answer@) ==> turn == 1,
                wf_history(history@),
                consistent_with_last(history@, answer@),
            decreases TURN_BUDGET + 1 - turn,
        {
            proof {
                assert(guesser.has(answer@) && consistent_with_last(history@, answer@));
            }
            let guess = guesser.guess(history.as_slice());
            proof {
                assert(g0.has(guess@));
            }
            if words_equal(guess.as_str(), answer) {
                return Some(turn);
            }
            proof {
                if only_candidate(g0, answer@) {
                    assert(guess@ == answer@);
                    assert(false);
                }
            }
            let mask = Correctness::compute(answer, guess.as_str(), &answer_letter_freq);
            let entry = Guess { word: guess, mask };
            history.push(entry);
            proof {
                assert(history@.last().mask@ == mask_spec(answer@, history@.last().word@));
                assert(matches_spec(history@.last().word@, history@.last().mask@, answer@));
                assert forall|i: int| 0 <= i < history@.len() implies wf_word(
                    #[trigger] history@[i].word@,
                ) by {}
            }
            turn = turn + 1;
        }
        None
    }
}

} // verus!
