pub mod codegen;
pub mod config;
pub mod error;
pub mod golang;
pub mod harmony;
pub mod order;
pub mod placeholder;
pub mod text;
pub mod tree;
pub mod typescript;
