//! A Reversi (Othello) rules engine: the board, the flip-chain rule, placement,
//! turn alternation with forced passes, and a greedy bot.
pub mod board;
pub mod error;
pub mod game;
pub mod text;
