//! Processing of HTML documents with CSS-like selectors: command splitting,
//! selector parsing, node selection over a document tree and the rendering
//! of the selected nodes.

mod text;
pub mod parser;
pub mod dom;
pub mod patterns;
pub mod selector;
pub mod config;
pub mod display;
pub mod pipeline;
pub mod properties;
