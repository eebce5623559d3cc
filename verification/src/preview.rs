use vstd::prelude::*;

verus! {

/// The HTML that pulldown-cmark writes for `markdown` with GitHub-style tables
/// enabled.
pub uninterp spec fn rendered_html(markdown: Seq<char>) -> Seq<char>;

/// Renders Markdown as HTML for the live preview: a `pulldown_cmark::Parser`
/// built by `Parser::new_ext` with `Options::ENABLE_TABLES`, written by
/// `pulldown_cmark::html::push_html` into an empty string. What is claimed is
/// only that the HTML depends on the Markdown alone (`rendered_html`); nothing
/// is stated of its content.
#[verifier::external_body]
pub fn markdown_to_html(markdown: &str) -> (html: String)
    ensures
        html@ == rendered_html(markdown@),
{
    let parser = pulldown_cmark::Parser::new_ext(markdown, pulldown_cmark::Options::ENABLE_TABLES);
    let mut html = String::new();
    pulldown_cmark::html::push_html(&mut html, parser);
    html
}

} // verus!
