//! Completion candidates out of a log of shell commands and the directories
//! in which they were run.

pub mod candidate_laws;
pub mod colors;
pub mod colour_laws;
pub mod command_laws;
pub mod config;
pub mod display_laws;
pub mod files;
pub mod location;
pub mod location_laws;
pub mod number;
pub mod outcome;
pub mod paint;
pub mod path;
pub mod path_laws;
pub mod scheme_laws;
pub mod session;
pub mod session_laws;
pub mod style;
pub mod style_laws;
pub mod tail;
pub mod text;
pub mod tokens;
pub mod utf8;
pub mod words;
