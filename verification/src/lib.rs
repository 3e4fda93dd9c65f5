//! A word-guessing game with two hidden answers: the analysis of repeated
//! letters, the selection of an answer pair, the scoring of a guess against
//! both answers at once, and the session that counts the guesses.

pub mod corpus;
pub mod game;
pub mod letters;
pub mod messages;
pub mod score;
pub mod selection;
pub mod text;
pub mod turns;
