//! Game engine for a multiplayer, turn-based word-guessing party game.
//!
//! A room starts in a lobby where players join and pick teams; once every
//! team has exactly two members the game begins, and teams take timed turns
//! describing and guessing secret words, optionally constrained by taboo
//! hint words.  This crate holds the room state machine, the word catalog
//! with weighted random selection, and the serialization of the interactive
//! button commands; message transport and timers live outside it.

pub mod callback_query_command;
pub mod digits;
pub mod rng;
pub mod text;
pub mod room;
pub mod seqs;
pub mod words;
