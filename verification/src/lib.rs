//! Verified core of a block-based Markdown editor: UTF-16/UTF-8 offset
//! arithmetic, inline formatting, block classification, Markdown-to-tree
//! conversion, the editor's document/undo state, and the files of saved
//! versions.

pub mod text;
pub mod ast;
pub mod inline_format;
pub mod block_type;
pub mod markdown;
pub mod document;
pub mod editor_state;
pub mod history;
pub mod commands;
pub mod version_files;
