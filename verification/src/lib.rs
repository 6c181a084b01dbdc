pub mod ast;
pub mod block;
pub mod error;
pub mod text;
pub mod types;
pub mod order;
pub mod slicer;
pub mod debug_text;
pub mod coverage;
pub mod json;
pub mod name_map;
pub mod wave;
pub mod services;
pub mod tui;
pub mod backend;
pub mod mcp;
