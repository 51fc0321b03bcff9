//! The correctness evaluator: scoring a guess against an answer under the
//! classic duplicate-letter rule, with a closed-form specification.

use vstd::prelude::*;

verus! {

broadcast use vstd::array::group_array_axioms;

/// The per-position feedback for one guessed letter.
#[derive(Debug, Clone, Copy, PartialEq, Eq, Structural)]
pub enum Correctness {
    /// Green: the letter stands at this position in the answer.
    Correct,
    /// Yellow: the letter occurs elsewhere in the answer and is not used up.
    Misplaced,
    /// Gray: no credit for this letter at this position.
    Wrong,
}

/// A letter is one of the 26 lowercase ASCII characters.
pub open spec fn is_lower(c: char) -> bool {
    97 <= c as int <= 122
}

/// A well-formed word: exactly five lowercase ASCII letters.
pub open spec fn wf_word(s: Seq<char>) -> bool {
    &&& s.len() == 5
    &&& forall|i: int| 0 <= i < s.len() ==> is_lower(#[trigger] s[i])
}

/// The lowercase letter with alphabet index `k` (0 is 'a', 25 is 'z').
pub open spec fn lchar(k: int) -> char {
    ((97 + k) as u8) as char
}

/// How often `c` occurs among the first `n` positions of `s`.
pub open spec fn count_char(s: Seq<char>, c: char, n: int) -> int
    decreases n,
{
    if n <= 0 {
        0
    } else {
        count_char(s, c, n - 1) + if s[n - 1] == c {
            1int
        } else {
            0int
        }
    }
}

/// How many of the first `n` positions are exact matches carrying letter `c`.
pub open spec fn count_exact(a: Seq<char>, g: Seq<char>, c: char, n: int) -> int
    decreases n,
{
    if n <= 0 {
        0
    } else {
        count_exact(a, g, c, n - 1) + if a[n - 1] == g[n - 1] && a[n - 1] == c {
            1int
        } else {
            0int
        }
    }
}

/// How many of the first `n` positions guess letter `c` without an exact match.
pub open spec fn count_loose(a: Seq<char>, g: Seq<char>, c: char, n: int) -> int
    decreases n,
{
    if n <= 0 {
        0
    } else {
        count_loose(a, g, c, n - 1) + if g[n - 1] == c && a[n - 1] != g[n - 1] {
            1int
        } else {
            0int
        }
    }
}

/// How many occurrences of `c` in the answer remain creditable as Misplaced
/// once the exact matches have claimed theirs.
pub open spec fn misplaced_quota(a: Seq<char>, g: Seq<char>, c: char) -> int {
    count_char(a, c, 5) - count_exact(a, g, c, 5)
}

/// The feedback at position `i`: Correct on an exact match; otherwise
/// Misplaced while earlier non-exact occurrences of the letter have not yet
/// used up the quota; otherwise Wrong.
pub open spec fn mask_at(a: Seq<char>, g: Seq<char>, i: int) -> Correctness {
    if a[i] == g[i] {
        Correctness::Correct
    } else if count_loose(a, g, g[i], i) < misplaced_quota(a, g, g[i]) {
        Correctness::Misplaced
    } else {
        Correctness::Wrong
    }
}

/// The full five-slot feedback for guessing `g` against answer `a`.
pub open spec fn mask_spec(a: Seq<char>, g: Seq<char>) -> Seq<Correctness> {
    Seq::new(5, |i: int| mask_at(a, g, i))
}

/// A table `f` of 26 counters that records, for each letter, how often it
/// occurs in the five-letter word `s`.
pub open spec fn freq_ok(s: Seq<char>, f: Seq<u8>) -> bool {
    &&& f.len() == 26
    &&& forall|k: int| 0 <= k < 26 ==> #[trigger] f[k] == count_char(s, lchar(k), 5)
}

proof fn lemma_count_char_bounds(s: Seq<char>, c: char, n: int)
    requires
        0 <= n,
    ensures
        0 <= count_char(s, c, n) <= n,
    decreases n,
{
    if n > 0 {
        lemma_count_char_bounds(s, c, n - 1);
    }
}

proof fn lemma_count_char_mono(s: Seq<char>, c: char, m: int, n: int)
    requires
        0 <= m <= n,
    ensures
        count_char(s, c, m) <= count_char(s, c, n),
    decreases n,
{
    if m < n {
        lemma_count_char_mono(s, c, m, n - 1);
    }
}

proof fn lemma_count_exact_le_count_char(a: Seq<char>, g: Seq<char>, c: char, n: int)
    requires
        0 <= n,
    ensures
        0 <= count_exact(a, g, c, n) <= count_char(a, c, n),
    decreases n,
{
    if n > 0 {
        lemma_count_exact_le_count_char(a, g, c, n - 1);
    }
}

proof fn lemma_count_loose_bounds(a: Seq<char>, g: Seq<char>, c: char, n: int)
    requires
        0 <= n,
    ensures
        0 <= count_loose(a, g, c, n) <= n,
    decreases n,
{
    if n > 0 {
        lemma_count_loose_bounds(a, g, c, n - 1);
    }
}

proof fn lemma_lchar_codepoint(k: int)
    requires
        0 <= k < 26,
    ensures
        lchar(k) as int == 97 + k,
        is_lower(lchar(k)),
{
}

proof fn lemma_lchar_roundtrip(c: char)
    requires
        is_lower(c),
    ensures
        0 <= c as int - 97 < 26,
        lchar(c as int - 97) == c,
{
    lemma_lchar_codepoint(c as int - 97);
}

/// Turns a lowercase letter into its alphabet index.
fn letter_index(c: char) -> (k: usize)
    requires
        is_lower(c),
    ensures
        k < 26,
        k as int == c as int - 97,
        lchar(k as int) == c,
{
    proof {
        lemma_lchar_roundtrip(c);
    }
    (c as u8 - 97) as usize
}

/// Builds the per-letter occurrence table of a five-letter word.
pub fn get_letter_freq(s: &str) -> (f: [u8; 26])
    requires
        wf_word(s@),
    ensures
        freq_ok(s@, f@),
{
    let mut f: [u8; 26] = [0; 26];
    let mut i: usize = 0;
    while i < 5
        invariant
            wf_word(s@),
            i <= 5,
            forall|k: int| 0 <= k < 26 ==> #[trigger] f@[k] == count_char(s@, lchar(k), i as int),
        decreases 5 - i,
    {
        let c = s.get_char(i);
        let k = letter_index(c);
        proof {
            lemma_count_char_bounds(s@, c, i as int);
        }
        let cur = f[k];
        f[k] = cur + 1;
        proof {
            assert forall|k2: int| 0 <= k2 < 26 implies #[trigger] f@[k2] == count_char(
                s@,
                lchar(k2),
                i + 1,
            ) by {
                lemma_lchar_codepoint(k2);
            }
        }
        i = i + 1;
    }
    proof {
        assert forall|k: int| 0 <= k < 26 implies #[trigger] f@[k] == count_char(
            s@,
            lchar(k),
            5,
        ) by {
        }
    }
    f
}

impl Correctness {
    /// The two-pass evaluator: exact matches first, then misplaced credit
    /// limited by each letter's remaining count in the answer.
    pub fn compute(answer: &str, guess: &str, answer_letter_freq: &[u8; 26]) -> (mask: [Correctness; 5])
        requires
            wf_word(answer@),
            wf_word(guess@),
            freq_ok(answer@, answer_letter_freq@),
        ensures
            mask@ == mask_spec(answer@, guess@),
    {
        let ghost a = answer@;
        let ghost g = guess@;
        let mut mask: [Correctness; 5] = [
            Correctness::Wrong,
            Correctness::Wrong,
            Correctness::Wrong,
            Correctness::Wrong,
            Correctness::Wrong,
        ];
        let mut freq: [u8; 26] = *answer_letter_freq;

        let mut i: usize = 0;
        while i < 5
            invariant
                wf_word(a),
                wf_word(g),
                a == answer@,
                g == guess@,
                i <= 5,
                forall|j: int| 0 <= j < i ==> #[trigger] mask@[j] == (if a[j] == g[j] {
                    Correctness::Correct
                } else {
                    Correctness::Wrong
                }),
                forall|j: int| i <= j < 5 ==> #[trigger] mask@[j] == Correctness::Wrong,
                forall|k: int| 0 <= k < 26 ==> #[trigger] freq@[k] == count_char(a, lchar(k), 5)
                    - count_exact(a, g, lchar(k), i as int),
            decreases 5 - i,
        {
            let ac = answer.get_char(i);
            let gc = guess.get_char(i);
            if ac == gc {
                mask[i] = Correctness::Correct;
                let k = letter_index(ac);
                proof {
                    lemma_count_exact_le_count_char(a, g, ac, i + 1);
                    lemma_count_char_mono(a, ac, i + 1, 5);
                }
                let cur = freq[k];
                freq[k] = cur - 1;
            }
            proof {
                assert forall|k2: int| 0 <= k2 < 26 implies #[trigger] freq@[k2] == count_char(
                    a,
                    lchar(k2),
                    5,
                ) - count_exact(a, g, lchar(k2), i + 1) by {
                    lemma_lchar_codepoint(k2);
                }
            }
            i = i + 1;
        }

        let mut i: usize = 0;
        while i < 5
            invariant
                wf_word(a),
                wf_word(g),
                a == answer@,
                g == guess@,
                i <= 5,
                forall|j: int| 0 <= j < i ==> #[trigger] mask@[j] == mask_at(a, g, j),
                forall|j: int| i <= j < 5 ==> #[trigger] mask@[j] == (if a[j] == g[j] {
                    Correctness::Correct
                } else {
                    Correctness::Wrong
                }),
                forall|k: int| 0 <= k < 26 ==> #[trigger] freq@[k] == max0(
                    misplaced_quota(a, g, lchar(k)) - count_loose(a, g, lchar(k), i as int),
                ),
            decreases 5 - i,
        {
            let gc = guess.get_char(i);
            let here = mask[i];
            if !matches!(here, Correctness::Correct) {
                let k = letter_index(gc);
                proof {
                    lemma_count_loose_bounds(a, g, gc, i as int);
                    lemma_count_exact_le_count_char(a, g, gc, 5);
                }
                let cur = freq[k];
                if cur > 0 {
                    freq[k] = cur - 1;
                    mask[i] = Correctness::Misplaced;
                }
            }
            proof {
                assert forall|k2: int| 0 <= k2 < 26 implies #[trigger] freq@[k2] == max0(
                    misplaced_quota(a, g, lchar(k2)) - count_loose(a, g, lchar(k2), i + 1),
                ) by {
                    lemma_lchar_codepoint(k2);
                }
            }
            i = i + 1;
        }
        proof {
            assert(mask@ =~= mask_spec(a, g));
        }
        mask
    }
}

/// The nonnegative part of an integer.
spec fn max0(x: int) -> int {
    if x > 0 {
        x
    } else {
        0
    }
}

proof fn lemma_count_char_zero(s: Seq<char>, c: char, n: int)
    requires
        0 <= n,
        forall|j: int| 0 <= j < n ==> s[j] != c,
    ensures
        count_char(s, c, n) == 0,
    decreases n,
{
    if n > 0 {
        lemma_count_char_zero(s, c, n - 1);
    }
}

/// Guessing the answer itself earns Correct at every position.
pub proof fn lemma_self_guess_all_correct(a: Seq<char>)
    requires
        wf_word(a),
    ensures
        forall|i: int| 0 <= i < 5 ==> mask_spec(a, a)[i] == Correctness::Correct,
{
}

/// When the answer and the guess share no letter, every position is Wrong.
pub proof fn lemma_disjoint_all_wrong(a: Seq<char>, g: Seq<char>)
    requires
        wf_word(a),
        wf_word(g),
        forall|i: int, j: int| 0 <= i < 5 && 0 <= j < 5 ==> a[i] != g[j],
    ensures
        forall|i: int| 0 <= i < 5 ==> mask_spec(a, g)[i] == Correctness::Wrong,
{
    assert forall|i: int| 0 <= i < 5 implies mask_spec(a, g)[i] == Correctness::Wrong by {
        lemma_count_char_zero(a, g[i], 5);
        lemma_count_exact_le_count_char(a, g, g[i], 5);
        lemma_count_loose_bounds(a, g, g[i], i);
    }
}

/// How many of the first `n` positions carry letter `c` in the guess and are
/// credited (Correct or Misplaced) by the mask.
pub open spec fn count_credited(a: Seq<char>, g: Seq<char>, c: char, n: int) -> int
    decreases n,
{
    if n <= 0 {
        0
    } else {
        count_credited(a, g, c, n - 1) + if g[n - 1] == c && mask_at(a, g, n - 1)
            != Correctness::Wrong {
            1int
        } else {
            0int
        }
    }
}

proof fn lemma_conservation_aux(a: Seq<char>, g: Seq<char>, c: char, n: int)
    requires
        0 <= n <= 5,
    ensures
        count_credited(a, g, c, n) <= count_exact(a, g, c, n) + (if count_loose(a, g, c, n)
            <= max0(misplaced_quota(a, g, c)) {
            count_loose(a, g, c, n)
        } else {
            max0(misplaced_quota(a, g, c))
        }),
    decreases n,
{
    if n > 0 {
        lemma_conservation_aux(a, g, c, n - 1);
        lemma_count_loose_bounds(a, g, c, n - 1);
        lemma_count_exact_le_count_char(a, g, c, n - 1);
    }
}

/// Letter-count conservation: for any answer and guess, the number of
/// Correct and Misplaced marks carrying a letter never exceeds that letter's
/// count in the answer.
pub proof fn lemma_letter_conservation(a: Seq<char>, g: Seq<char>, c: char)
    requires
        wf_word(a),
        wf_word(g),
    ensures
        count_credited(a, g, c, 5) <= count_char(a, c, 5),
{
    lemma_conservation_aux(a, g, c, 5);
    lemma_count_exact_le_count_char(a, g, c, 5);
    lemma_count_loose_bounds(a, g, c, 5);
}

} // verus!
