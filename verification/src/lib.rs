//! Document-structure and link-resolution engine for a wiki-link markdown
//! dialect: outline building, offset/position translation, wiki-link
//! location, fuzzy-ranked workspace search and link completion.

use vstd::prelude::*;

pub mod completion;
pub mod formatter;
pub mod frontmatter;
pub mod fuzzy;
pub mod outline;
pub mod parser;
pub mod search;
pub mod store;
pub mod symbol;
pub mod position;
pub mod rank;
pub mod wikilink;

verus! {

/// True exactly when `c` is one of the Unicode white-space characters that
/// `char::is_whitespace` recognises.
pub open spec fn is_wspace(c: char) -> bool {
    c == ' ' || c == '\t' || c == '\n' || c == '\r' || c == '\u{0b}' || c == '\u{0c}'
        || c == '\u{85}' || c == '\u{a0}' || c == '\u{1680}'
        || ('\u{2000}' <= c && c <= '\u{200a}') || c == '\u{2028}' || c == '\u{2029}'
        || c == '\u{202f}' || c == '\u{205f}' || c == '\u{3000}'
}

/// Executable form of `is_wspace`.
pub fn is_whitespace_char(c: char) -> (r: bool)
    ensures
        r == is_wspace(c),
{
    c == ' ' || c == '\t' || c == '\n' || c == '\r' || c == '\u{0b}' || c == '\u{0c}'
        || c == '\u{85}' || c == '\u{a0}' || c == '\u{1680}'
        || ('\u{2000}' <= c && c <= '\u{200a}') || c == '\u{2028}' || c == '\u{2029}'
        || c == '\u{202f}' || c == '\u{205f}' || c == '\u{3000}'
}

} // verus!
