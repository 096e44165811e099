//! The rendering bridge to an optional rich-output backend. No backend is wired into this
//! build, so every entry point answers `None` and callers fall back to their own markdown
//! rendering.

use vstd::prelude::*;

verus! {

/// A formatted message from the rich-output backend; with no backend present, `None`.
pub fn render_message(text: &str, cols: usize) -> (r: Option<String>)
    ensures
        r is None,
{
    None
}

/// A formatted diff from the rich-output backend; with no backend present, `None`.
pub fn render_diff(text: &str, cols: usize) -> (r: Option<String>)
    ensures
        r is None,
{
    None
}

/// A handle for a streaming renderer, holding the terminal width it was made for.
#[derive(Debug, Clone, PartialEq, Eq)]
pub struct StreamingRenderer {
    /// The terminal width.
    pub cols: usize,
}

impl StreamingRenderer {
    /// A handle for the given width.
    pub fn new(cols: usize) -> (r: Self)
        ensures
            r.cols == cols,
    {
        StreamingRenderer { cols }
    }
}

/// A streaming renderer from the rich-output backend; with no backend present, `None`.
pub fn make_stream_renderer(cols: usize) -> (r: Option<StreamingRenderer>)
    ensures
        r is None,
{
    None
}

} // verus!
