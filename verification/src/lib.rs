//! Turns an indented tree drawing into the list of directories and files it
//! stands for.

pub mod builder;
pub mod levels;
pub mod models;
pub mod parser;
pub mod path;
pub mod text;
