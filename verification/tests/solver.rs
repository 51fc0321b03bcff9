use wordle_solver::Correctness;
use wordle_solver::DictEntry;
use wordle_solver::Guess;
use wordle_solver::Guesser;
use wordle_solver::Wordle;
use wordle_solver::algorithms::Naive;
use wordle_solver::get_letter_freq;
use wordle_solver::store::check_word;
use wordle_solver::store::prune;

const C: Correctness = Correctness::Correct;
const W: Correctness = Correctness::Wrong;

fn entries(list: &[(&str, usize)]) -> Vec<DictEntry> {
    list.iter()
        .map(|&(w, count)| DictEntry { word: w.to_string(), count })
        .collect()
}

fn feedback(answer: &str, guess: &str) -> Guess {
    Guess {
        word: guess.to_string(),
        mask: Correctness::compute(answer, guess, &get_letter_freq(answer)),
    }
}

#[test]
fn matches_recognises_consistent_words() {
    let g = Guess {
        word: "abcde".to_string(),
        mask: [C, W, W, W, W],
    };
    assert!(g.matches("azzzz"));
    assert!(!g.matches("abcde"));
    assert!(!g.matches("fghij"));
}

#[test]
fn prune_keeps_the_answer() {
    let words = entries(&[("abcde", 1), ("fghij", 1), ("azzzz", 1)]);
    let rem = vec![0usize, 1, 2];
    let last = feedback("azzzz", "abcde");
    let pruned = prune(&words, &rem, &last);
    assert_eq!(pruned, vec![2usize]);
}

#[test]
fn prune_never_grows() {
    let words = entries(&[("abcde", 1), ("fghij", 1), ("azzzz", 1)]);
    let rem = vec![0usize, 1, 2];
    let last = feedback("azzzz", "abcde");
    let pruned = prune(&words, &rem, &last);
    assert!(pruned.len() <= rem.len());
}

#[test]
fn prune_is_idempotent_on_consistent_candidates() {
    let words = entries(&[("abcde", 1), ("fghij", 1), ("azzzz", 1)]);
    let rem = vec![0usize, 1, 2];
    let last = feedback("azzzz", "abcde");
    let once = prune(&words, &rem, &last);
    let twice = prune(&words, &once, &last);
    assert_eq!(once, twice);
}

#[test]
fn naive_picks_most_frequent_first() {
    let mut naive = Naive::new(entries(&[("abcde", 3), ("fghij", 9), ("klmno", 9)]));
    assert_eq!(naive.guess(&[]), "fghij");
}

#[test]
fn naive_prunes_with_last_feedback() {
    let mut naive = Naive::new(entries(&[("azzzz", 1), ("abcde", 5), ("fghij", 2)]));
    let history = vec![feedback("azzzz", "abcde")];
    assert_eq!(naive.guess(&history), "azzzz");
}

#[test]
fn immediate_win_takes_one_turn() {
    let wordle = Wordle::new(vec!["abcde".to_string()]);
    let naive = Naive::new(entries(&[("abcde", 1)]));
    assert_eq!(wordle.play("abcde", naive), Some(1));
}

#[test]
fn full_game_terminates_within_budget() {
    let list = [
        ("their", 4),
        ("crate", 9),
        ("slate", 7),
        ("moist", 3),
        ("shirt", 5),
    ];
    let words: Vec<String> = list.iter().map(|&(w, _)| w.to_string()).collect();
    let wordle = Wordle::new(words);
    let naive = Naive::new(entries(&list));
    let result = wordle.play("their", naive);
    match result {
        Some(turns) => assert!((1..=32).contains(&turns)),
        None => panic!("a sound strategy over a dictionary this small must win"),
    }
}

#[test]
fn check_word_accepts_only_five_lowercase_letters() {
    assert!(check_word("abcde"));
    assert!(check_word("their"));
    assert!(!check_word("abcd"));
    assert!(!check_word("abcdef"));
    assert!(!check_word("Abcde"));
    assert!(!check_word("abc1e"));
    assert!(!check_word(""));
}
