//! Selection, parsing and sequential run-state engine for versioned SQL
//! script repositories.

pub mod text;
pub mod batch_parser;
pub mod config;
pub mod db;
pub mod cli;
pub mod selection;
pub mod entries;
pub mod script_memory;
pub mod runner;
pub mod repository;
pub mod list;
