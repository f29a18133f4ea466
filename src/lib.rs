//! A directory jumper's core: a weighted store of visited paths and the
//! engine that ranks them against path fragments typed by the user.
pub mod text;
pub mod database;
pub mod matching;
pub mod rank;
pub mod path;
pub mod handlers;
pub mod config;
pub mod install;
