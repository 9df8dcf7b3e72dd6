//! Text-scanning primitives: a streaming UTF-8 chunk reader over a byte
//! source, and cursors that walk an in-memory string while tracking byte
//! offset, line and column.
pub mod peekable;
pub mod reader;
pub mod scanner;
pub mod scanner_lite;
pub mod utf8;
