use wordle_solver::Correctness;
use wordle_solver::get_letter_freq;

const C: Correctness = Correctness::Correct;
const M: Correctness = Correctness::Misplaced;
const W: Correctness = Correctness::Wrong;

#[test]
fn all_green() {
    assert_eq!(
        Correctness::compute("abcde", "abcde", &get_letter_freq("abcde")),
        [C, C, C, C, C]
    );
}

#[test]
fn all_yellow() {
    assert_eq!(
        Correctness::compute("abcde", "eabcd", &get_letter_freq("abcde")),
        [M, M, M, M, M]
    );
}

#[test]
fn all_grey() {
    assert_eq!(
        Correctness::compute("abcde", "fghij", &get_letter_freq("abcde")),
        [W, W, W, W, W]
    );
}

#[test]
fn repeat_green() {
    assert_eq!(
        Correctness::compute("aabbb", "aaccc", &get_letter_freq("aabbb")),
        [C, C, W, W, W]
    );
}

#[test]
fn repeat_yellow() {
    assert_eq!(
        Correctness::compute("aabbb", "cccaa", &get_letter_freq("aabbb")),
        [W, W, W, M, M]
    );
}

#[test]
fn repeat_some_green() {
    assert_eq!(
        Correctness::compute("aabbb", "accca", &get_letter_freq("aabbb")),
        [C, W, W, W, M]
    );
}

#[test]
fn already_taken() {
    assert_eq!(
        Correctness::compute("aabbb", "ccaaa", &get_letter_freq("aabbb")),
        [W, W, M, M, W]
    );
}

#[test]
fn should_not_complete_with_correct_one() {
    assert_eq!(
        Correctness::compute("babbb", "aaccc", &get_letter_freq("babbb")),
        [W, C, W, W, W]
    );
}

#[test]
fn self_guess_is_all_green() {
    assert_eq!(
        Correctness::compute("their", "their", &get_letter_freq("their")),
        [C, C, C, C, C]
    );
}

#[test]
fn disjoint_letters_are_all_grey() {
    assert_eq!(
        Correctness::compute("mount", "barks", &get_letter_freq("mount")),
        [W, W, W, W, W]
    );
}

#[test]
fn letter_credit_is_capped_by_answer_count() {
    // The answer holds two a's, the guess five: only two may be credited.
    let mask = Correctness::compute("aabbb", "aaaaa", &get_letter_freq("aabbb"));
    assert_eq!(mask, [C, C, W, W, W]);
    let credited = mask
        .iter()
        .filter(|&&m| m != Correctness::Wrong)
        .count();
    assert_eq!(credited, 2);
}

#[test]
fn letter_frequency_table_counts_each_letter() {
    let f = get_letter_freq("aabbc");
    assert_eq!(f[0], 2);
    assert_eq!(f[1], 2);
    assert_eq!(f[2], 1);
    assert_eq!(f[25], 0);
    let total: u32 = f.iter().map(|&x| x as u32).sum();
    assert_eq!(total, 5);
}
