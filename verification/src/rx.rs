//! The regular-expression capability of the pipeline, held behind a small
//! trusted boundary around the `regex` crate.
//!
//! Compiling a pattern, testing a line against it, and substituting its
//! occurrences are all functions of the pattern, the replacement and the
//! text alone, so each result is given a name below; everything the rest
//! of the crate proves about matching and rewriting is stated over those
//! names.

use vstd::prelude::*;

verus! {

/// Whether `pat` compiles as a regular expression, that is, whether
/// `regex::Regex::new` on `pat` returns `Ok`.
pub uninterp spec fn re_compiles(pat: Seq<char>) -> bool;

/// Whether the regular expression `pat` finds at least one occurrence in
/// `text`, as `regex::Regex::is_match` decides it.
pub uninterp spec fn re_is_match(pat: Seq<char>, text: Seq<char>) -> bool;

/// The text that results from replacing every non-overlapping occurrence
/// of `pat` in `text` with `rep` (with the usual expansion of group
/// references in `rep`), as `regex::Regex::replace_all` computes it.
pub uninterp spec fn re_replace_all(pat: Seq<char>, rep: Seq<char>, text: Seq<char>) -> Seq<char>;

#[verifier::external_type_specification]
#[verifier::external_body]
pub struct ExRegex(regex::Regex);

/// A compiled regular expression together with the pattern it was
/// compiled from.
pub struct Rx {
    pattern: String,
    inner: regex::Regex,
}

impl Rx {
    /// The pattern this expression was compiled from.
    pub closed spec fn pat(self) -> Seq<char> {
        self.pattern@
    }

    /// Relies on `regex::Regex::new`: compilation succeeds exactly on the
    /// patterns that are valid regular-expression syntax (and within the
    /// default size limit), and depends on the pattern string alone.
    #[verifier::external_body]
    pub(crate) fn new(pattern: &str) -> (r: Option<Rx>)
        ensures
            r is Some <==> re_compiles(pattern@),
            r matches Some(rx) ==> rx.pat() == pattern@,
    {
        match regex::Regex::new(pattern) {
            Ok(inner) => Some(Rx { pattern: pattern.to_owned(), inner }),
            Err(_) => None,
        }
    }

    /// Relies on `regex::Regex::is_match`: true exactly when the pattern
    /// occurs somewhere in `text`; the result depends on the pattern and
    /// the text alone.
    #[verifier::external_body]
    pub(crate) fn is_match(&self, text: &str) -> (r: bool)
        ensures
            r == re_is_match(self.pat(), text@),
    {
        self.inner.is_match(text)
    }

    /// Relies on `regex::Regex::replace_all`: replaces every
    /// non-overlapping occurrence of the pattern in `text` with `rep`;
    /// the result depends on the pattern, the replacement and the text
    /// alone.
    #[verifier::external_body]
    pub(crate) fn replace_all(&self, text: &str, rep: &str) -> (r: String)
        ensures
            r@ == re_replace_all(self.pat(), rep@, text@),
    {
        self.inner.replace_all(text, rep).into_owned()
    }
}

} // verus!
