//! A five-letter word game: the evaluation of guesses against a secret
//! answer, and a solver that narrows a pool of words from reported hints
//! and ranks what is left by letter frequency.

pub mod guess;
pub mod hint;
pub mod paint;
pub mod play;
pub mod score;
pub mod solve;
pub mod word;

pub use guess::{guess_word, GuessLetter, GuessResult};
pub use hint::{filter_pool, is_candidate, FoundLetter, Hint};
pub use play::{play, play_step, random_answer, Game, PlayError, PlayState, Turn, MAX_GUESSES};
pub use score::{suggest, top_suggestions, SHOWN_GROUPS};
pub use solve::{parse_feedback, word_pool, InvalidFeedbackSyntax, Solver};
pub use word::{ParseError, Word};
