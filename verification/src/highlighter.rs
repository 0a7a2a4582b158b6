//! Final pass over the rendered HTML.
use vstd::prelude::*;

verus! {

/// Apply syntax highlighting to all code blocks in HTML.
///
/// Code blocks are already fully formatted by the parser (escaped, with a
/// `language-` class where a language was given), so the HTML is returned
/// unchanged.
pub fn highlight_code_blocks(html: &str) -> (r: String)
    ensures
        r@ == html@,
{
    broadcast use vstd::string::group_string_axioms;
    html.to_string()
}

} // verus!
