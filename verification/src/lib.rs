//! A verified SQL formatter and linter over tree-sitter syntax trees.
pub mod parser;
pub mod text;
pub mod ir;
pub mod linter;
pub mod formatter;
pub mod server;
pub mod extension;
pub mod wire;
pub mod dump;
