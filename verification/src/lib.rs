//! A verified solver core for the five-letter word-guessing game: the
//! correctness evaluator, candidate pruning, a frequency-ranked guessing
//! strategy, and the game loop that drives them.

pub mod algorithms;
pub mod game;
pub mod guess;
pub mod mask;
pub mod store;

pub use game::Wordle;
pub use guess::Guess;
pub use guess::Guesser;
pub use mask::Correctness;
pub use mask::get_letter_freq;
pub use store::DictEntry;
