//! hintkit: the verified core of an inline terminal autocomplete.

pub mod bundle;
pub mod cli;
pub mod context;
pub mod debouncer;
pub mod engine;
pub mod generators;
pub mod input;
pub mod line_buffer;
pub mod matcher;
pub mod output;
pub mod pty;
pub mod schema;
pub mod shell_integration;
pub mod sorting;
pub mod state;
pub mod text;
pub mod tokens;
