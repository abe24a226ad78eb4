//! Markdown rendering.
use vstd::prelude::*;

verus! {

/// The HTML that the renderer makes of a markdown text.
pub uninterp spec fn html_of(markdown: Seq<char>) -> Seq<char>;

/// Relies on `comrak::markdown_to_html`, with strikethrough, tag filter,
/// tables, autolinks, task lists, superscript and raw HTML enabled: the HTML
/// is a function of the markdown alone.
#[verifier::external_body]
pub fn md_to_html(markdown: &str) -> (r: String)
    ensures
        r@ == html_of(markdown@),
{
    let mut options = comrak::Options::default();
    options.extension.strikethrough = true;
    options.extension.tagfilter = true;
    options.extension.table = true;
    options.extension.autolink = true;
    options.extension.tasklist = true;
    options.extension.superscript = true;
    options.render.unsafe_ = true;
    comrak::markdown_to_html(markdown, &options)
}

} // verus!
