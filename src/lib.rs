//! Framing, classification and display state for an inspector that sits
//! between a language client and a language server on their stdio pipes.

pub mod frame;
pub mod classify;
pub mod lsp;
pub mod inspector;
pub mod command;
