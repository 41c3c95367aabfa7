//! Markdown rendering for display: the document's visible text is
//! markdown, and callers ask for its HTML form.  The conversion itself
//! is done by the `pulldown_cmark` crate; this module gives its result
//! a name and exposes the call under an exact contract.

use vstd::prelude::*;

verus! {

/// The HTML that CommonMark rendering produces for a markdown text.
/// The rendering reads nothing but the text, so its result is a
/// function of the text alone.
pub uninterp spec fn html_of(markdown: Seq<char>) -> Seq<char>;

/// Relies on pulldown_cmark::Parser::new and
/// pulldown_cmark::html::push_html: parsing events from the markdown
/// text and writing their HTML depend on the text alone.
#[verifier::external_body]
fn markdown_to_html(markdown: &str) -> (r: String)
    ensures
        r@ == html_of(markdown@),
{
    let parser = pulldown_cmark::Parser::new(markdown);
    let mut html = String::new();
    pulldown_cmark::html::push_html(&mut html, parser);
    html
}

/// Renders a markdown text to HTML for the presentation layer.
pub fn parse_markdown(markdown: &str) -> (html: String)
    ensures
        html@ == html_of(markdown@),
{
    markdown_to_html(markdown)
}

} // verus!
