//! Markdown-to-HTML rendering, in two modes.
//!
//! Trusted mode lets raw HTML in the source through, for already-curated
//! site content; untrusted mode disables the passthrough, for live
//! previews of arbitrary input. Rendering never fails: a conversion error
//! falls back to a plain best-effort conversion.

use vstd::prelude::*;

verus! {

#[derive(Clone, Copy, Debug, PartialEq, Eq, Structural)]
pub enum RenderMode {
    /// Raw HTML in the source passes through to the output.
    Trusted,
    /// Raw HTML passthrough is disabled.
    Untrusted,
}

/// The HTML that the GitHub-flavored markdown dialect produces for a
/// body, with front-matter syntax disabled; the flag says whether raw
/// HTML passthrough was allowed. The result depends on the body's bytes
/// and the flag alone.
pub uninterp spec fn rendered_html(body: Seq<u8>, allow_raw_html: bool) -> Seq<u8>;

/// Relies on `markdown::to_html_with_options` with `Options::gfm()`,
/// front matter disabled and `allow_dangerous_html` set from the flag;
/// on the conversion error only MDX syntax can produce, it falls back to
/// `markdown::to_html`. Both depend on the input text alone.
#[verifier::external_body]
fn gfm_to_html(body: &[u8], allow_raw_html: bool) -> (r: Vec<u8>)
    ensures
        r@ == rendered_html(body@, allow_raw_html),
{
    let text = String::from_utf8_lossy(body);
    let mut opts = markdown::Options::gfm();
    opts.parse.constructs.frontmatter = false;
    opts.compile.allow_dangerous_html = allow_raw_html;
    match markdown::to_html_with_options(&text, &opts) {
        Ok(h) => h.into_bytes(),
        Err(_) => markdown::to_html(&text).into_bytes(),
    }
}

/// Render a markdown body to HTML in the given mode.
pub fn render(body: &[u8], mode: RenderMode) -> (r: Vec<u8>)
    ensures
        r@ == rendered_html(body@, mode is Trusted),
{
    match mode {
        RenderMode::Trusted => gfm_to_html(body, true),
        RenderMode::Untrusted => gfm_to_html(body, false),
    }
}

} // verus!
