//! Trusted boundary: the few calls the library makes into outside crates
//! and into parts of std that vstd does not specify. Each wrapper's
//! contract is what its callers' proofs rest on.

use vstd::prelude::*;

verus! {

/// The rendered HTML of a markdown text. Markdown rendering depends on
/// the text alone, so its result only gets a name here; nothing else is
/// assumed about it.
pub uninterp spec fn render_of(s: Seq<char>) -> Seq<char>;

/// Relies on comrak::markdown_to_html: a pure function of the markdown
/// text, with strikethrough, tagfilter, tables, autolink, tasklists and
/// superscript enabled and raw HTML passed through.
#[verifier::external_body]
pub fn md_to_html(markdown: &str) -> (r: String)
    ensures
        r@ == render_of(markdown@),
{
    let mut options = comrak::Options::default();
    options.extension.strikethrough = true;
    options.extension.tagfilter = true;
    options.extension.table = true;
    options.extension.autolink = true;
    options.extension.tasklist = true;
    options.extension.superscript = true;
    options.render.unsafe_ = true;
    comrak::markdown_to_html(markdown, &options)
}

/// The lowercase form of a text. Case folding depends on the characters
/// alone, so the result is only named.
pub uninterp spec fn lower_of(s: Seq<char>) -> Seq<char>;

/// Relies on str::to_lowercase: the result depends on the characters alone.
#[verifier::external_body]
pub fn to_lower(s: &str) -> (r: String)
    ensures
        r@ == lower_of(s@),
{
    s.to_lowercase()
}

/// Whether a character counts as alphanumeric under Unicode. The
/// classification depends on the character alone, so it is only named.
pub uninterp spec fn alnum_of(c: char) -> bool;

/// Relies on char::is_alphanumeric: a pure classification of the character.
#[verifier::external_body]
pub fn char_is_alphanumeric(c: char) -> (r: bool)
    ensures
        r == alnum_of(c),
{
    c.is_alphanumeric()
}

/// Relies on chrono::Local::now, formatted as `YYYY-MM-DD HH:MM:SS`.
/// The result depends on the clock, so nothing is promised of it; the
/// store normalizes whatever comes back.
#[verifier::external_body]
pub fn now_string() -> String {
    chrono::Local::now().format("%Y-%m-%d %H:%M:%S").to_string()
}

} // verus!
