//! A terminal chat client for language models: line editing, stream decoding, the request
//! to the model and its configuration, markdown rendering (prose, code, tables, diffs), what
//! the screen shows, the tools' rules and outputs, and the application's state machine.

pub mod text;
pub mod input;
pub mod types;
pub mod stream;
pub mod state;
pub mod ui;
pub mod tool;
pub mod render;
pub mod table;
pub mod highlight;
pub mod message;
pub mod llm;
pub mod config;
