//! Resolution of relative package URIs against the repository origin.
//!
//! The url crate does the parsing and joining; its outcomes are named here
//! and every contract downstream speaks of those names.

use vstd::prelude::*;

verus! {

/// What joining a relative reference `rel` against the absolute URL string
/// `base` yields, serialized back to a string; the outcome depends on the
/// two strings alone. `None` when `base` does not parse or the join fails.
pub uninterp spec fn resolved_url(base: Seq<char>, rel: Seq<char>) -> Option<Seq<char>>;

/// The final path segment of an absolute URL string; the outcome depends on
/// the string alone. `None` when the string does not parse as a URL or the
/// URL cannot be a base (it has no path segments).
pub uninterp spec fn url_last_segment(u: Seq<char>) -> Option<Seq<char>>;

/// Relies on url::Url::parse and url::Url::join: resolves the relative
/// reference `rel` against the absolute URL `base` and serializes the
/// result with url::Url::as_str.
#[verifier::external_body]
pub fn join_url(base: &str, rel: &str) -> (r: Option<String>)
    ensures
        r is Some <==> resolved_url(base@, rel@) is Some,
        r matches Some(s) ==> resolved_url(base@, rel@) == Some(s@),
{
    let parsed = url::Url::parse(base).ok()?;
    let joined = parsed.join(rel).ok()?;
    Some(joined.as_str().to_string())
}

/// Relies on url::Url::parse and url::Url::path_segments: the final segment
/// of the URL's path, the file name of the artifact the URL points at.
#[verifier::external_body]
pub fn url_filename(u: &str) -> (r: Option<String>)
    ensures
        r is Some <==> url_last_segment(u@) is Some,
        r matches Some(s) ==> url_last_segment(u@) == Some(s@),
{
    let parsed = url::Url::parse(u).ok()?;
    let segments = parsed.path_segments()?;
    segments.last().map(|s| s.to_string())
}

} // verus!
