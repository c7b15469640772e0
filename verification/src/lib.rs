//! A chat bot for a streaming channel: viewers earn points while they chat,
//! and `!`-commands answer with configured texts or with the bot's own
//! handlers (points, giving, stealing, a leaderboard, ...).
//!
//! Every decision the bot takes on a chat line is computed here and proved
//! against its contract; reading the configuration, the saved data and the
//! chat connection itself lives in the program around this library.

pub mod bot;
pub mod config;
pub mod handlers;
pub mod laws;
pub mod names;
pub mod runtime;
pub mod text;
