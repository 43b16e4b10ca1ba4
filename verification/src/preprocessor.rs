//! The preprocessor as the book builder sees it.

use vstd::prelude::*;
use crate::rewrite::{add_excalidraw, rewritten, RewriteError};
use crate::text::{text_eq, utf8};
use crate::tokenizer::markdown_events;

verus! {

/// The name under which the preprocessor is configured.
pub const PREPROCESSOR_NAME: &'static str = "excalidraw";

/// The preprocessor that turns Mermaid blocks into Excalidraw containers.
pub struct ExcalidrawPreprocessor;

impl ExcalidrawPreprocessor {
    /// The preprocessor's name.
    pub fn name(&self) -> (name: &str)
        ensures
            name@ == PREPROCESSOR_NAME@,
    {
        PREPROCESSOR_NAME
    }

    /// Whether the preprocessor has anything to do for a renderer: it has for
    /// `html` and for `markdown`, and for no other.
    pub fn supports_renderer(&self, renderer: &str) -> (supported: bool)
        ensures
            supported == (renderer@ == "html"@ || renderer@ == "markdown"@),
    {
        text_eq(renderer, "html") || text_eq(renderer, "markdown")
    }

    /// Rewrites the text of one chapter in place. Where the text cannot be
    /// rewritten it is left as it was, and the error is handed back.
    pub fn process_chapter(&self, content: &mut String) -> (result: Result<(), RewriteError>)
        ensures
            match result {
                Ok(_) => rewritten(utf8(old(content)@), markdown_events(old(content)@)) == Some(
                    utf8(final(content)@),
                ),
                Err(error) => {
                    &&& rewritten(utf8(old(content)@), markdown_events(old(content)@)) is None
                    &&& error == RewriteError::MalformedSpans
                    &&& final(content)@ == old(content)@
                },
            },
    {
        match add_excalidraw(content.as_str()) {
            Ok(output) => {
                *content = output;
                Ok(())
            },
            Err(error) => Err(error),
        }
    }
}

} // verus!
