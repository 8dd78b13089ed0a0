pub mod builder;
pub mod cli;
pub mod label;
pub mod tree;
