pub mod commands;
pub mod fmt;
pub mod hlevels;
pub mod lexer;
pub mod lines;
pub mod link;
pub mod text;
pub mod token;
