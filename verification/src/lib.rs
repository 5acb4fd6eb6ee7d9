//! Loading, naming and typing of m-expression module trees.

pub mod text;
pub mod order;
pub mod path;
pub mod grammar;
pub mod expr;
pub mod files;
pub mod sort;
pub mod types;
pub mod report;
pub mod guards;
pub mod properties;
pub mod behaviour;
