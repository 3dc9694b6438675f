//! Scoped style sheets: parse style source into a tree, render it under a
//! generated class name, and share one compiled artifact per distinct tree.

pub mod ast;
pub mod render;
pub mod parser;
pub mod registry;
pub mod style;
