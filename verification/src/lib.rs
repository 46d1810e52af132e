//! The logic of an interactive shell for a content-addressed DHT.

pub mod text;
pub mod number;
pub mod calendar;
pub mod chronology;
pub mod timeout;
pub mod terminal;
pub mod unicode;
pub mod banner;
pub mod args;
pub mod tokens;
pub mod completion;
pub mod cli;
pub mod identity;
pub mod protocol;
pub mod content;
pub mod session;
pub mod commands;
pub mod shell;
pub mod database;
pub mod startup;
