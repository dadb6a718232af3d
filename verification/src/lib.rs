pub mod text;
pub mod grid;
pub mod keys;
pub mod session;
pub mod mcp;
