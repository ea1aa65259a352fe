//! A five-letter word-guessing game and a framework for evaluating guessing
//! strategies against it.
//!
//! The core is the correctness evaluator ([`mask::Correctness::compute`]),
//! which scores a guess against a secret answer with exact duplicate-letter
//! accounting, and the constraint matcher, which decides whether a candidate
//! word is still consistent with a recorded guess. The matcher re-scores the
//! candidate with the evaluator and compares masks, so the two can never
//! disagree. The game loop's outcome is pinned, round by round, to the
//! strategy's choice function ([`game::Guesser::next_word`]), which makes a
//! whole game a function of the answer and the strategy's starting state
//! ([`game::play_outcome_matches`], [`game::lemma_play_deterministic`]).

pub mod algorithms;
pub mod dictionary;
pub mod game;
pub mod mask;

pub use algorithms::naive::Naive;
pub use dictionary::DictEntry;
pub use dictionary::DictError;
pub use game::Guess;
pub use game::Guesser;
pub use game::MAX_ROUNDS;
pub use game::Wordle;
pub use mask::Correctness;
pub use mask::WORD_LEN;
