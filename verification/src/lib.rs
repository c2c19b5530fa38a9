//! A typing trainer for English vocabulary: the logic behind the game
//! (scoring, highlighting of typed words, choosing the next card and
//! the decisions of the game loop), with its contracts.

pub mod game;
pub mod highlight;
pub mod numbers;
pub mod option;
pub mod passage;
pub mod scoring;
pub mod text;
pub mod term_check;
