//! File-name filters for generated output: a capability interface over
//! text, with the two naming strategies the configuration can select.

use vstd::prelude::*;

use crate::directory::{sanitize_file_name, sanitized_of};
use crate::strings::{sp_trim, trim};

verus! {

/// A text-to-text filter chosen by configuration.
pub trait TextFilter {
    /// Rewrites the text.
    fn filter(&self, text: &str) -> String;
}

/// What `slugify` returns: the lower-case ASCII slug of the text. The
/// result depends on the text alone.
pub uninterp spec fn slug_of(s: Seq<char>) -> Seq<char>;

/// Turns text into a lower-case ASCII slug.
///
/// Relies on `slug::slugify`: a pure rewriting into `a-z`, `0-9` and
/// `-`, a function of its argument alone.
#[verifier::external_body]
pub fn slugify(text: &str) -> (r: String)
    ensures
        r@ == slug_of(text@),
{
    slug::slugify(text)
}

/// The two file-name strategies: sanitize the trimmed text, or slugify
/// it.
#[derive(Clone, Copy, Debug, PartialEq)]
pub enum FileNameFilter {
    Sanitize,
    Slugify,
}

impl Default for FileNameFilter {
    /// Sanitizing is the default strategy.
    fn default() -> (r: Self)
        ensures
            r is Sanitize,
    {
        FileNameFilter::Sanitize
    }
}

impl TextFilter for FileNameFilter {
    fn filter(&self, text: &str) -> (r: String)
        ensures
            match self {
                FileNameFilter::Sanitize => r@ == sanitized_of(sp_trim(text@)),
                FileNameFilter::Slugify => r@ == slug_of(text@),
            },
    {
        match self {
            FileNameFilter::Sanitize => sanitize_file_name(trim(text)),
            FileNameFilter::Slugify => slugify(text),
        }
    }
}

} // verus!
