pub mod action;
pub mod common;
pub mod config;
pub mod diff;
pub mod git;
pub mod input;
pub mod log;
pub mod order;
pub mod parser;
pub mod repo;
pub mod text;
