//! Rewrites the Mermaid code blocks of a markdown document into Excalidraw
//! containers.

pub mod text;
pub mod escape;
pub mod fragment;
pub mod event;
pub mod scan;
pub mod splice;
pub mod tokenizer;
pub mod rewrite;
pub mod preprocessor;
pub mod install;

pub use escape::escape_html;
pub use preprocessor::ExcalidrawPreprocessor;
pub use rewrite::{add_excalidraw, rewrite_events, RewriteError};
