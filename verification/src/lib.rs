//! A small presentation language: its tokenizer, its parser and the
//! document model that the parser builds; and what the viewer of a
//! presentation does with the events of its window.

pub mod event_loop;
pub mod parsing;
pub mod presentation;
pub mod text;
