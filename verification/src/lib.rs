//! Message-processing core of a Discord chat client: text rewriting for
//! mentions, channels and emojis, an n-gram babbler, terminal input editing
//! and the decisions the bot takes for each incoming message.

pub mod text;
pub mod matching;
pub mod patterns;
pub mod yapping;
pub mod bot;
pub mod terminal;
pub mod brackets;
