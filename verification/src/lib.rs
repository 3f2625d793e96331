//! A small modal text editor's core: gap buffers with a cursor, vim-like
//! motions and text objects, command patterns and parsing, change history,
//! the editor's state machine, and syntax highlighting over tree-sitter.
//! Terminal and files stay with the program around it.
pub mod text;
pub mod digits;
pub mod span;
pub mod gap;
pub mod history;
pub mod textobject;
pub mod pattern;
pub mod buffer;
pub mod wordclass;
pub mod cmd;
pub mod app;
pub mod object;
pub mod simple_buffer;
pub mod movement;
pub mod cmdbuf;
pub mod highlight;
pub mod layout;
