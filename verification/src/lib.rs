//! A shell history store: the entries, the line format they are stored in,
//! the queries a picker makes over them, and the rows it draws.

pub mod cli;
pub mod commands;
pub mod entry;
pub mod ids;
pub mod import;
pub mod inflight;
pub mod json;
pub mod order;
pub mod query;
pub mod render;
pub mod rows;
pub mod scan;
pub mod store;
pub mod text;
