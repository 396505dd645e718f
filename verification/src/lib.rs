//! Extraction of fenced and inline code blocks from Markdown text.

pub mod block;
pub mod collect;
pub mod document;
pub mod fence;
pub mod inline;
pub mod languages;
pub mod lines;
pub mod number;
pub mod pipeline;
pub mod render;
pub mod select;
pub mod text;
