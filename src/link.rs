//! Canonical URLs: parsing and resolution through the `url` crate, then scheme
//! filtering and fragment removal.
use vstd::prelude::*;
use vstd::string::*;

verus! {

/// `url::ParseError`, carried unopened in an error.
#[verifier::external_type_specification]
#[verifier::external_body]
pub struct ExParseError(url::ParseError);

/// The scheme and the serialization of the URL that `url::Url::parse` reads
/// from `s`, or `None` where it reports an error.
pub uninterp spec fn url_parse(s: Seq<char>) -> Option<(Seq<char>, Seq<char>)>;

/// The scheme and the serialization of the URL that `url::Url::join` gives for
/// `href` against the URL parsed from `base`, or `None` where either step
/// reports an error.
pub uninterp spec fn url_join(base: Seq<char>, href: Seq<char>) -> Option<(Seq<char>, Seq<char>)>;

/// Relies on `url::Url::parse`; the result carries the parsed URL's `scheme()`
/// and `as_str()`.
#[verifier::external_body]
fn parse_url(s: &str) -> (r: Result<(String, String), url::ParseError>)
    ensures
        r is Ok <==> url_parse(s@) is Some,
        r matches Ok(p) ==> url_parse(s@) == Some((p.0@, p.1@)),
{
    url::Url::parse(s).map(|u| (u.scheme().to_string(), u.as_str().to_string()))
}

/// Relies on `url::Url::join` applied to the URL that `url::Url::parse` reads
/// from `base`; the result carries the joined URL's `scheme()` and `as_str()`.
#[verifier::external_body]
fn join_url(base: &str, href: &str) -> (r: Result<(String, String), url::ParseError>)
    ensures
        r is Ok <==> url_join(base@, href@) is Some,
        r matches Ok(p) ==> url_join(base@, href@) == Some((p.0@, p.1@)),
{
    url::Url::parse(base).and_then(|b| b.join(href)).map(
        |u| (u.scheme().to_string(), u.as_str().to_string()),
    )
}

/// Index of the first `'#'` at or after `i`, or the length when there is none.
pub open spec fn hash_index_from(s: Seq<char>, i: int) -> int
    decreases s.len() - i,
{
    if i < 0 || i >= s.len() {
        s.len() as int
    } else if s[i] == '#' {
        i
    } else {
        hash_index_from(s, i + 1)
    }
}

/// `s` without its fragment: everything before the first `'#'`.
pub open spec fn before_fragment(s: Seq<char>) -> Seq<char> {
    s.subrange(0, hash_index_from(s, 0))
}

/// The schemes a crawl follows.
pub open spec fn is_web_scheme(scheme: Seq<char>) -> bool {
    scheme == "http"@ || scheme == "https"@
}

/// The canonical form of a parsed URL: its serialization without fragment,
/// for `http` and `https` URLs only.
pub open spec fn canonical_of(scheme: Seq<char>, serialized: Seq<char>) -> Option<Seq<char>> {
    if is_web_scheme(scheme) {
        Some(before_fragment(serialized))
    } else {
        None
    }
}

/// The canonical form of what a parse or a join gave, `None` for an error.
pub open spec fn canonical_parsed(p: Option<(Seq<char>, Seq<char>)>) -> Option<Seq<char>> {
    match p {
        Some(parts) => canonical_of(parts.0, parts.1),
        None => None,
    }
}

pub open spec fn opt_view(o: Option<String>) -> Option<Seq<char>> {
    match o {
        Some(s) => Some(s@),
        None => None,
    }
}

proof fn lemma_hash_index_bounds(s: Seq<char>, i: int)
    requires
        0 <= i <= s.len(),
    ensures
        i <= hash_index_from(s, i) <= s.len(),
    decreases s.len() - i,
{
    if i < s.len() && s[i] != '#' {
        lemma_hash_index_bounds(s, i + 1);
    }
}

/// Removes the fragment of `s`: the first `'#'` and everything after it.
pub fn strip_fragment(s: &str) -> (r: String)
    ensures
        r@ == before_fragment(s@),
{
    let n = s.unicode_len();
    let mut i: usize = 0;
    while i < n && s.get_char(i) != '#'
        invariant
            n == s@.len(),
            i <= n,
            hash_index_from(s@, 0) == hash_index_from(s@, i as int),
        decreases n - i,
    {
        i = i + 1;
    }
    proof {
        lemma_hash_index_bounds(s@, 0);
        assert(hash_index_from(s@, i as int) == i);
    }
    String::from_str(s.substring_char(0, i))
}

/// Whether `scheme` is `http` or `https`.
pub fn is_crawlable_scheme(scheme: &str) -> (r: bool)
    ensures
        r == is_web_scheme(scheme@),
{
    let sc = String::from_str(scheme);
    let http = String::from_str("http");
    let https = String::from_str("https");
    sc == http || sc == https
}

/// The canonical URL for a parsed URL given by its scheme and serialization:
/// `None` unless the scheme is `http` or `https`, and otherwise the
/// serialization with its fragment removed.
pub fn canonicalize(scheme: &str, serialized: &str) -> (r: Option<String>)
    ensures
        opt_view(r) == canonical_of(scheme@, serialized@),
{
    if is_crawlable_scheme(scheme) {
        Some(strip_fragment(serialized))
    } else {
        None
    }
}

/// Sanitizes and validates an absolute URL: `None` when it does not parse or
/// its scheme is not `http`/`https`, and otherwise its canonical form.
pub fn sanitize_link(link: &str) -> (r: Option<String>)
    ensures
        opt_view(r) == canonical_parsed(url_parse(link@)),
{
    match parse_url(link) {
        Ok(parts) => canonicalize(parts.0.as_str(), parts.1.as_str()),
        Err(_) => None,
    }
}

/// Resolves `href` (absolute or relative) against `base` and canonicalizes
/// the result: `None` when either does not parse or the scheme is not
/// `http`/`https`.
pub fn resolve_link(href: &str, base: &str) -> (r: Option<String>)
    ensures
        opt_view(r) == canonical_parsed(url_join(base@, href@)),
{
    match join_url(base, href) {
        Ok(parts) => canonicalize(parts.0.as_str(), parts.1.as_str()),
        Err(_) => None,
    }
}

/// Parses `link` and returns its canonical form, or the parser's error; an
/// URL that parses with another scheme than `http`/`https` gives `Ok(None)`.
pub fn parse_canonical(link: &str) -> (r: Result<Option<String>, url::ParseError>)
    ensures
        r is Ok <==> url_parse(link@) is Some,
        r matches Ok(c) ==> opt_view(c) == canonical_parsed(url_parse(link@)),
{
    match parse_url(link) {
        Ok(parts) => Ok(canonicalize(parts.0.as_str(), parts.1.as_str())),
        Err(e) => Err(e),
    }
}

} // verus!
