//! A verified core for playing and solving the five-letter word-guessing
//! game: feedback scoring with exact duplicate-letter semantics, packed
//! feedback codes for table indexing, a dictionary of legal guesses with
//! frequency priors, an information-gain solver, and the game loop that
//! drives a playthrough.

pub mod word;
pub mod feedback;
pub mod record;
pub mod dict;
pub mod game;
pub mod solver;
pub mod corpus;

pub use word::Word;
pub use word::WordError;
pub use feedback::Correctness;
pub use record::Guess;
pub use dict::DictError;
pub use game::Guesser;
pub use game::PlayError;
pub use game::Wordle;
