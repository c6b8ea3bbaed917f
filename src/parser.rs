//! Queries on HTML documents: title and description, links, elements by id
//! and by class. Documents are parsed and selectors evaluated by `scraper`.
use vstd::prelude::*;
use vstd::string::*;
use crate::link::{opt_view, resolve_link, canonical_parsed, url_join};

verus! {

/// The `html()` of each element that `selector` matches in the document
/// parsed from `html`, in the order `Html::select` yields them; `None` for a
/// selector that does not parse.
pub uninterp spec fn matched_html(html: Seq<char>, selector: Seq<char>) -> Option<Seq<Seq<char>>>;

/// The text of each element that `selector` matches in the document parsed
/// from `html`, in the order `Html::select` yields them; `None` for a
/// selector that does not parse.
pub uninterp spec fn matched_text(html: Seq<char>, selector: Seq<char>) -> Option<Seq<Seq<char>>>;

/// The value of attribute `attr` on each element that `selector` matches in
/// the document parsed from `html`, in the order `Html::select` yields
/// them; `None` for a selector that does not parse.
pub uninterp spec fn matched_attr(html: Seq<char>, selector: Seq<char>, attr: Seq<char>) -> Option<
    Seq<Option<Seq<char>>>,
>;

pub open spec fn strs(v: Seq<String>) -> Seq<Seq<char>> {
    v.map_values(|s: String| s@)
}

pub open spec fn opt_strs(v: Seq<Option<String>>) -> Seq<Option<Seq<char>>> {
    v.map_values(|o: Option<String>| opt_view(o))
}

pub open spec fn opt_strs_view(o: Option<Vec<String>>) -> Option<Seq<Seq<char>>> {
    match o {
        Some(v) => Some(strs(v@)),
        None => None,
    }
}

pub open spec fn opt_attrs_view(o: Option<Vec<Option<String>>>) -> Option<Seq<Option<Seq<char>>>> {
    match o {
        Some(v) => Some(opt_strs(v@)),
        None => None,
    }
}

/// Relies on `scraper::Html::parse_document`, `scraper::Selector::parse` and
/// `Html::select`, taking `ElementRef::html` of each match. With scraper's
/// `deterministic` feature, attributes are serialized in source order.
#[verifier::external_body]
fn select_html(html: &str, selector: &str) -> (r: Option<Vec<String>>)
    ensures
        opt_strs_view(r) == matched_html(html@, selector@),
{
    let document = scraper::Html::parse_document(html);
    let selector = scraper::Selector::parse(selector).ok()?;
    Some(document.select(&selector).map(|e| e.html()).collect())
}

/// Relies on `scraper::Html::parse_document`, `scraper::Selector::parse` and
/// `Html::select`, joining the text nodes (`ElementRef::text`) of each match.
#[verifier::external_body]
fn select_text(html: &str, selector: &str) -> (r: Option<Vec<String>>)
    ensures
        opt_strs_view(r) == matched_text(html@, selector@),
{
    let document = scraper::Html::parse_document(html);
    let selector = scraper::Selector::parse(selector).ok()?;
    Some(document.select(&selector).map(|e| e.text().collect::<String>()).collect())
}

/// Relies on `scraper::Html::parse_document`, `scraper::Selector::parse` and
/// `Html::select`, reading `Element::attr` of each match.
#[verifier::external_body]
fn select_attr(html: &str, selector: &str, attr: &str) -> (r: Option<Vec<Option<String>>>)
    ensures
        opt_attrs_view(r) == matched_attr(html@, selector@, attr@),
{
    let document = scraper::Html::parse_document(html);
    let selector = scraper::Selector::parse(selector).ok()?;
    Some(document.select(&selector).map(|e| e.value().attr(attr).map(|a| a.to_string())).collect())
}

/// The values present in `v`, in order.
pub open spec fn present(v: Seq<Option<Seq<char>>>) -> Seq<Seq<char>>
    decreases v.len(),
{
    if v.len() == 0 {
        Seq::empty()
    } else {
        let rest = present(v.drop_last());
        match v.last() {
            Some(s) => rest.push(s),
            None => rest,
        }
    }
}

/// The attribute values that are present, in order.
pub fn present_values(v: &Vec<Option<String>>) -> (r: Vec<String>)
    ensures
        strs(r@) == present(opt_strs(v@)),
{
    let mut out: Vec<String> = Vec::new();
    let mut i: usize = 0;
    while i < v.len()
        invariant
            i <= v@.len(),
            strs(out@) == present(opt_strs(v@).take(i as int)),
        decreases v@.len() - i,
    {
        proof {
            assert(opt_strs(v@).take(i + 1).drop_last() =~= opt_strs(v@).take(i as int));
        }
        match &v[i] {
            Some(s) => {
                out.push(s.clone());
                proof {
                    assert(strs(out@) =~= strs(out@).drop_last().push(s@));
                }
            },
            None => {},
        }
        i = i + 1;
    }
    assert(opt_strs(v@).take(v@.len() as int) =~= opt_strs(v@));
    out
}

/// Extracts the raw `href` of every anchor of `html`, absolute or relative,
/// in the order `Html::select` yields the anchors.
pub fn extract_links(html: &str) -> (r: Vec<String>)
    ensures
        strs(r@) == match matched_attr(html@, "a[href]"@, "href"@) {
            Some(v) => present(v),
            None => Seq::empty(),
        },
{
    match select_attr(html, "a[href]", "href") {
        Some(hrefs) => present_values(&hrefs),
        None => Vec::new(),
    }
}

/// The first item of `o`, if any.
pub open spec fn first_of(o: Option<Seq<Seq<char>>>) -> Option<Seq<char>> {
    match o {
        Some(v) => if v.len() > 0 {
            Some(v[0])
        } else {
            None
        },
        None => None,
    }
}

/// The value on the first element of `o`, if there is one and it has it.
pub open spec fn first_present(o: Option<Seq<Option<Seq<char>>>>) -> Option<Seq<char>> {
    match o {
        Some(v) => if v.len() > 0 {
            v[0]
        } else {
            None
        },
        None => None,
    }
}

/// The selector of the page description.
pub open spec fn description_selector() -> Seq<char> {
    "meta[name=\"description\"]"@
}

/// The title and the description of a page, from the texts of its `title`
/// elements and the `content` values of its description `meta` elements.
pub fn meta_from_matches(titles: Option<Vec<String>>, contents: Option<Vec<Option<String>>>) -> (r: (
    Option<String>,
    Option<String>,
))
    ensures
        opt_view(r.0) == first_of(opt_strs_view(titles)),
        opt_view(r.1) == first_present(opt_attrs_view(contents)),
{
    let title = match titles {
        Some(v) => if v.len() > 0 {
            Some(v[0].clone())
        } else {
            None
        },
        None => None,
    };
    let description = match contents {
        Some(v) => if v.len() > 0 {
            match &v[0] {
                Some(s) => Some(s.clone()),
                None => None,
            }
        } else {
            None
        },
        None => None,
    };
    (title, description)
}

/// Parses the HTML content and extracts the title (the text of the first
/// `title` element) and the meta description (the `content` of the first
/// `meta name="description"` element).
pub fn get_meta_and_title(html: &str) -> (r: (Option<String>, Option<String>))
    ensures
        opt_view(r.0) == first_of(matched_text(html@, "title"@)),
        opt_view(r.1) == first_present(matched_attr(html@, description_selector(), "content"@)),
{
    let titles = select_text(html, "title");
    let contents = select_attr(html, "meta[name=\"description\"]", "content");
    meta_from_matches(titles, contents)
}

/// `mark` followed by `name`.
pub fn prefixed(mark: &str, name: &str) -> (r: String)
    ensures
        r@ == mark@ + name@,
{
    let mut s = String::from_str(mark);
    s.append(name);
    s
}

/// Finds the first element whose `id` is `id` and returns its HTML, or `None`
/// when there is none or `#id` is not a valid selector.
pub fn find_element_by_id(html: &str, id: &str) -> (r: Option<String>)
    ensures
        opt_view(r) == first_of(matched_html(html@, "#"@ + id@)),
{
    let selector = prefixed("#", id);
    match select_html(html, selector.as_str()) {
        Some(v) => if v.len() > 0 {
            Some(v[0].clone())
        } else {
            None
        },
        None => None,
    }
}

/// The HTML of every element with class `class`, in the order
/// `Html::select` yields them; empty when `.class` is not a valid selector.
pub fn get_elements_by_cls(html: &str, class: &str) -> (r: Vec<String>)
    ensures
        strs(r@) == match matched_html(html@, "."@ + class@) {
            Some(v) => v,
            None => Seq::empty(),
        },
{
    let selector = prefixed(".", class);
    match select_html(html, selector.as_str()) {
        Some(v) => v,
        None => Vec::new(),
    }
}

/// The canonical forms of `hrefs` resolved against `base`, in order, leaving
/// out those that do not resolve to an `http`/`https` URL.
pub open spec fn resolved(hrefs: Seq<Seq<char>>, base: Seq<char>) -> Seq<Seq<char>>
    decreases hrefs.len(),
{
    if hrefs.len() == 0 {
        Seq::empty()
    } else {
        let rest = resolved(hrefs.drop_last(), base);
        match canonical_parsed(url_join(base, hrefs.last())) {
            Some(c) => rest.push(c),
            None => rest,
        }
    }
}

/// Resolves each of `hrefs` against `base` and keeps the canonical
/// `http`/`https` URLs, in order.
pub fn resolve_all(hrefs: &Vec<String>, base: &str) -> (r: Vec<String>)
    ensures
        strs(r@) == resolved(strs(hrefs@), base@),
{
    let mut out: Vec<String> = Vec::new();
    let mut i: usize = 0;
    while i < hrefs.len()
        invariant
            i <= hrefs@.len(),
            strs(out@) == resolved(strs(hrefs@).take(i as int), base@),
        decreases hrefs@.len() - i,
    {
        proof {
            assert(strs(hrefs@).take(i + 1).drop_last() =~= strs(hrefs@).take(i as int));
        }
        match resolve_link(hrefs[i].as_str(), base) {
            Some(c) => {
                out.push(c);
                proof {
                    assert(strs(out@) =~= strs(out@).drop_last().push(out@.last()@));
                }
            },
            None => {},
        }
        i = i + 1;
    }
    assert(strs(hrefs@).take(hrefs@.len() as int) =~= strs(hrefs@));
    out
}

/// The links of a page that a crawl follows: the `href` of every anchor,
/// resolved against `base` and canonicalized, in the order `Html::select`
/// yields them.
pub open spec fn page_links_of(html: Seq<char>, base: Seq<char>) -> Seq<Seq<char>> {
    match matched_attr(html, "a[href]"@, "href"@) {
        Some(v) => resolved(present(v), base),
        None => Seq::empty(),
    }
}

/// The links of page `html` that a crawl with base `base` follows.
pub fn page_links(html: &str, base: &str) -> (r: Vec<String>)
    ensures
        strs(r@) == page_links_of(html@, base@),
{
    match select_attr(html, "a[href]", "href") {
        Some(hrefs) => {
            let values = present_values(&hrefs);
            resolve_all(&values, base)
        },
        None => Vec::new(),
    }
}

} // verus!
