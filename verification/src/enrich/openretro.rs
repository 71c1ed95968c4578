//! OpenRetro provider: the Open Amiga Game Database (openretro.org).
//!
//! Amiga-native and credential-free. There is no published JSON API, so this
//! scrapes the public game pages: a title maps to a slug at `/amiga/{slug}`, with
//! a fallback search through the per-letter browse index. Parsing is defensive —
//! any structural drift degrades to "no result", never a panic.

use vstd::prelude::*;

use crate::enrich::matching::normalize;
use crate::enrich::{is_accepted, is_higher, ProviderResult, Shot};
use crate::naming::sanitize_title;
use crate::text::{
    append_text, begins, chars_of, concat, cut_before, has_text, join_chars, join_strings,
    lists_text, lower_string, lowered, owned, replaced_char, same, same_chars, split_on_text,
    split_words, string_of, stripped_all, stripped_char, stripped_suffix, trimmed, trimmed_start,
};

verus! {

/// The name of the source.
pub const SOURCE: &'static str = "openretro";

/// The OpenRetro provider, by the address of its site.
#[derive(Debug, Clone)]
pub struct OpenRetro {
    pub base: String,
}

impl Default for OpenRetro {
    fn default() -> (r: OpenRetro)
        ensures
            r.base@ == "https://openretro.org"@,
    {
        OpenRetro { base: owned("https://openretro.org") }
    }
}

// --- Slugs ------------------------------------------------------------------

/// The slug of a title.
pub open spec fn slug_of(name: Seq<char>) -> Seq<char> {
    crate::text::lower(crate::naming::sanitized(name))
}

/// OpenRetro slug for a title: the kebab sanitizer, lowercased (e.g.
/// `A-10 Tank Killer` -> `a-10-tank-killer`, `The Addams Family` -> `the-addams-family`).
pub fn slug(name: &str) -> (r: String)
    ensures
        r@ == slug_of(name@),
{
    lower_string(&sanitize_title(name))
}

/// Whether a character is an ASCII letter.
pub open spec fn is_letter(c: char) -> bool {
    crate::text::is_lower(c) || crate::text::is_upper(c)
}

/// The first letter of a text from position `i` on, else `0`.
pub open spec fn first_letter(s: Seq<char>, i: int) -> char
    decreases s.len() - i,
{
    if i < 0 || i >= s.len() {
        '0'
    } else if is_letter(s[i]) {
        s[i]
    } else {
        first_letter(s, i + 1)
    }
}

/// First index letter for the browse fallback: the leading normalized letter,
/// else `0` (OpenRetro groups non-alphabetic titles under `0`).
pub fn index_letter(name: &str) -> (r: char)
    ensures
        r == first_letter(crate::enrich::matching::normalized(name@), 0),
{
    let c = chars_of(&normalize(name));
    let ghost n = crate::enrich::matching::normalized(name@);
    let mut i: usize = 0;
    while i < c.len()
        invariant
            i <= c@.len(),
            c@ == n,
            n == crate::enrich::matching::normalized(name@),
            first_letter(n, 0) == first_letter(n, i as int),
        decreases c@.len() - i,
    {
        let x = c[i];
        if 'a' <= x && x <= 'z' || 'A' <= x && x <= 'Z' {
            return x;
        }
        i += 1;
    }
    '0'
}

// --- Pages ------------------------------------------------------------------

/// An element of a page: its text, and its `href` and `content` attributes.
#[derive(Debug, Clone, PartialEq, Eq)]
pub struct Element {
    pub text: String,
    pub href: Option<String>,
    pub content: Option<String>,
}

/// What an element holds.
pub open spec fn element_view(e: Element) -> (Seq<char>, Option<Seq<char>>, Option<Seq<char>>) {
    (e.text@, crate::text::opt_view(e.href), crate::text::opt_view(e.content))
}

/// What elements hold.
pub open spec fn element_views(s: Seq<Element>) -> Seq<
    (Seq<char>, Option<Seq<char>>, Option<Seq<char>>),
> {
    s.map_values(|e: Element| element_view(e))
}

/// What optional elements hold.
pub open spec fn elements_or_none(r: Option<Vec<Element>>) -> Option<
    Seq<(Seq<char>, Option<Seq<char>>, Option<Seq<char>>)>,
> {
    match r {
        Some(v) => Some(element_views(v@)),
        None => None,
    }
}

/// The elements of a page that a CSS selector selects, in order; nothing where the
/// selector is none.
pub uninterp spec fn selected(html: Seq<char>, selector: Seq<char>) -> Option<
    Seq<(Seq<char>, Option<Seq<char>>, Option<Seq<char>>)>,
>;

/// Calls `scraper::Html::parse_document`, `scraper::Selector::parse` and `select`: the
/// elements of the page that the selector selects, in order, each with its whole text
/// and two of its attributes; nothing where the selector cannot be parsed.
#[verifier::external_body]
fn select(html: &str, selector: &str) -> (r: Option<Vec<Element>>)
    ensures
        elements_or_none(r) == selected(html@, selector@),
{
    let doc = scraper::Html::parse_document(html);
    let sel = match scraper::Selector::parse(selector) {
        Ok(s) => s,
        Err(_) => return None,
    };
    let element = |e: scraper::ElementRef| Element {
        text: e.text().collect(),
        href: e.value().attr("href").map(String::from),
        content: e.value().attr("content").map(String::from),
    };
    Some(doc.select(&sel).map(element).collect())
}

/// The elements inside the element at `i` of those that `outer` selects which `inner`
/// selects, in order; nothing where a selector is none or there is no such element.
pub uninterp spec fn selected_within(
    html: Seq<char>,
    outer: Seq<char>,
    i: usize,
    inner: Seq<char>,
) -> Option<Seq<(Seq<char>, Option<Seq<char>>, Option<Seq<char>>)>>;

/// Calls `scraper::Html::parse_document`, `scraper::Selector::parse` and `select`, and
/// `select` of one of the selected elements: the elements inside it that the inner
/// selector selects, in order.
#[verifier::external_body]
fn select_within(html: &str, outer: &str, i: usize, inner: &str) -> (r: Option<Vec<Element>>)
    ensures
        elements_or_none(r) == selected_within(html@, outer@, i, inner@),
{
    let doc = scraper::Html::parse_document(html);
    let (out, sel) = match (scraper::Selector::parse(outer), scraper::Selector::parse(inner)) {
        (Ok(a), Ok(b)) => (a, b),
        _ => return None,
    };
    let row = doc.select(&out).nth(i)?;
    let element = |e: scraper::ElementRef| Element {
        text: e.text().collect(),
        href: e.value().attr("href").map(String::from),
        content: e.value().attr("content").map(String::from),
    };
    Some(row.select(&sel).map(element).collect())
}

/// The first element, if there is one.
pub open spec fn first_element(
    e: Option<Seq<(Seq<char>, Option<Seq<char>>, Option<Seq<char>>)>>,
) -> Option<(Seq<char>, Option<Seq<char>>, Option<Seq<char>>)> {
    match e {
        Some(s) => if s.len() > 0 {
            Some(s[0])
        } else {
            None
        },
        None => None,
    }
}

// --- The title of a page ----------------------------------------------------

/// The text that the title of a page is taken from: its `<h1>`, unless that is blank,
/// else its `<title>`.
pub open spec fn raw_title(
    h1: Option<Seq<(Seq<char>, Option<Seq<char>>, Option<Seq<char>>)>>,
    title: Option<Seq<(Seq<char>, Option<Seq<char>>, Option<Seq<char>>)>>,
) -> Seq<char> {
    if first_element(h1) is Some && crate::text::trim((first_element(h1)->0).0).len() > 0 {
        (first_element(h1)->0).0
    } else if first_element(title) is Some {
        (first_element(title)->0).0
    } else {
        Seq::empty()
    }
}

/// A title without a site's suffix and the platform's.
pub open spec fn clean_title(raw: Seq<char>) -> Seq<char> {
    crate::text::trim(
        crate::text::strip_suffix(crate::text::trim(crate::text::before(raw, '|')), " Amiga"@),
    )
}

/// The title of a page.
pub open spec fn page_title(html: Seq<char>) -> Seq<char> {
    clean_title(raw_title(selected(html, "h1"@), selected(html, "title"@)))
}

/// The text of the first element, if there is one.
fn first_text(e: &Option<Vec<Element>>) -> (r: Option<String>)
    ensures
        match first_element(elements_or_none(*e)) {
            Some(x) => r is Some && r->0@ == x.0,
            None => r is None,
        },
{
    match e {
        Some(v) => {
            if v.len() > 0 {
                assert(element_views(v@)[0] == element_view(v@[0]));
                Some(owned(&v[0].text))
            } else {
                None
            }
        },
        None => None,
    }
}

/// The game's own title, given the `<h1>` and the `<title>` elements of its page:
/// prefer `<h1>`, else `<title>`, with the trailing " Amiga" platform tag and any
/// " | Site" suffix stripped.
pub fn title_from(h1: &Option<Vec<Element>>, title: &Option<Vec<Element>>) -> (r: String)
    ensures
        r@ == clean_title(raw_title(elements_or_none(*h1), elements_or_none(*title))),
{
    let mut raw: Vec<char> = Vec::new();
    let mut blank = true;
    if let Some(t) = first_text(h1) {
        let c = chars_of(&t);
        if trimmed(&c).len() > 0 {
            raw = c;
            blank = false;
        }
    }
    if blank {
        if let Some(t) = first_text(title) {
            raw = chars_of(&t);
        }
    }
    assert(raw@ =~= raw_title(elements_or_none(*h1), elements_or_none(*title)));
    let head = trimmed(&cut_before(&raw, '|'));
    string_of(&trimmed(&stripped_suffix(&head, " Amiga")))
}

/// The game's own title.
pub fn extract_page_title(html: &str) -> (r: String)
    ensures
        r@ == page_title(html@),
{
    title_from(&select(html, "h1"), &select(html, "title"))
}

// --- The description --------------------------------------------------------

/// The least length of a description, in bytes.
pub const MIN_DESCRIPTION: usize = 40;

/// A text, where it is long enough for a description.
pub open spec fn if_long(t: Seq<char>) -> Option<Seq<char>> {
    if crate::identity::byte_len(t) >= MIN_DESCRIPTION {
        Some(t)
    } else {
        None
    }
}

/// The description in a block: its text, white space collapsed.
pub open spec fn block_text(
    e: Option<Seq<(Seq<char>, Option<Seq<char>>, Option<Seq<char>>)>>,
) -> Option<Seq<char>> {
    match first_element(e) {
        Some(x) => if_long(crate::text::join(crate::text::words(x.0), " "@)),
        None => None,
    }
}

/// The description in a `meta` element: its content, trimmed.
pub open spec fn meta_text(
    e: Option<Seq<(Seq<char>, Option<Seq<char>>, Option<Seq<char>>)>>,
) -> Option<Seq<char>> {
    match first_element(e) {
        Some(x) => match x.2 {
            Some(c) => if_long(crate::text::trim(c)),
            None => None,
        },
        None => None,
    }
}

/// The first of four descriptions that is there.
pub open spec fn first_of(
    a: Option<Seq<char>>,
    b: Option<Seq<char>>,
    c: Option<Seq<char>>,
    d: Option<Seq<char>>,
) -> Option<Seq<char>> {
    if a is Some {
        a
    } else if b is Some {
        b
    } else if c is Some {
        c
    } else {
        d
    }
}

/// The description on a page.
pub open spec fn page_description(html: Seq<char>) -> Option<Seq<char>> {
    first_of(
        block_text(selected(html, ".game-about"@)),
        block_text(selected(html, ".game-description"@)),
        meta_text(selected(html, "meta[property=\"og:description\"]"@)),
        meta_text(selected(html, "meta[name=\"description\"]"@)),
    )
}

/// A text, where it is long enough for a description.
fn keep_long(t: String) -> (r: Option<String>)
    ensures
        crate::text::opt_view(r) == if_long(t@),
{
    if t.as_str().as_bytes().len() >= MIN_DESCRIPTION {
        Some(t)
    } else {
        None
    }
}

/// The description in a block.
pub fn block_description(e: &Option<Vec<Element>>) -> (r: Option<String>)
    ensures
        crate::text::opt_view(r) == block_text(elements_or_none(*e)),
{
    match first_text(e) {
        Some(t) => {
            let words = split_words(&chars_of(&t));
            keep_long(string_of(&join_chars(&words, " ")))
        },
        None => None,
    }
}

/// The description in a `meta` element.
pub fn meta_description(e: &Option<Vec<Element>>) -> (r: Option<String>)
    ensures
        crate::text::opt_view(r) == meta_text(elements_or_none(*e)),
{
    match e {
        Some(v) => {
            if v.len() > 0 {
                assert(element_views(v@)[0] == element_view(v@[0]));
                match &v[0].content {
                    Some(c) => keep_long(string_of(&trimmed(&chars_of(c)))),
                    None => None,
                }
            } else {
                None
            }
        },
        None => None,
    }
}

/// Description: the game summary from OpenRetro's `.game-about` block, falling
/// back to `.game-description` or an `og:description`/`meta description`. The blurb
/// is targeted deliberately — a generic "longest paragraph" would pick up the
/// page's footer/copyright boilerplate instead.
pub fn extract_description(html: &str) -> (r: Option<String>)
    ensures
        crate::text::opt_view(r) == page_description(html@),
{
    let about = block_description(&select(html, ".game-about"));
    if about.is_some() {
        return about;
    }
    let blurb = block_description(&select(html, ".game-description"));
    if blurb.is_some() {
        return blurb;
    }
    let og = meta_description(&select(html, "meta[property=\"og:description\"]"));
    if og.is_some() {
        return og;
    }
    meta_description(&select(html, "meta[name=\"description\"]"))
}

// --- The genre --------------------------------------------------------------

/// Whether a row of the info box is the one of the tags.
pub open spec fn is_tags_row(text: Seq<char>) -> bool {
    crate::text::starts_with(crate::text::lower(crate::text::trim_start(text)), "tags"@)
}

/// The genre that a link names: its text, or its target where it has none.
pub open spec fn genre_of_link(e: (Seq<char>, Option<Seq<char>>, Option<Seq<char>>)) -> Seq<char> {
    let t = crate::text::trim(e.0);
    if t.len() > 0 {
        t
    } else {
        let href = match e.1 {
            Some(h) => h,
            None => Seq::empty(),
        };
        crate::text::replace_char(crate::text::strip_all(href, "/browse/"@), '-', ' ')
    }
}

/// Whether a genre is among genres, whatever its case.
pub open spec fn has_genre(genres: Seq<Seq<char>>, g: Seq<char>) -> bool {
    exists|i: int|
        0 <= i < genres.len() && crate::text::lower(#[trigger] genres[i]) == crate::text::lower(g)
}

/// The genres that links name, each once.
pub open spec fn genres_of(
    links: Seq<(Seq<char>, Option<Seq<char>>, Option<Seq<char>>)>,
) -> Seq<Seq<char>>
    decreases links.len(),
{
    if links.len() == 0 {
        Seq::empty()
    } else {
        let rest = genres_of(links.drop_last());
        let g = genre_of_link(links.last());
        if g.len() > 0 && !has_genre(rest, g) {
            rest.push(g)
        } else {
            rest
        }
    }
}

/// The genre on a page, from row `i` of its info box on: the first row of tags that
/// names any.
pub open spec fn genre_from(
    html: Seq<char>,
    rows: Seq<(Seq<char>, Option<Seq<char>>, Option<Seq<char>>)>,
    i: int,
) -> Option<Seq<char>>
    decreases rows.len() - i,
{
    if i < 0 || i >= rows.len() {
        None
    } else if !is_tags_row(rows[i].0) {
        genre_from(html, rows, i + 1)
    } else {
        match selected_within(html, ".game-info-row"@, i as usize, "a[href^=\"/browse/\"]"@) {
            None => None,
            Some(links) => if genres_of(links).len() > 0 {
                Some(crate::text::join(genres_of(links), ", "@))
            } else {
                genre_from(html, rows, i + 1)
            },
        }
    }
}

/// The genre on a page.
pub open spec fn page_genre(html: Seq<char>) -> Option<Seq<char>> {
    match selected(html, ".game-info-row"@) {
        None => None,
        Some(rows) => genre_from(html, rows, 0),
    }
}

/// Whether a row of the info box is the one of the tags.
pub fn row_of_tags(text: &str) -> (r: bool)
    ensures
        r == is_tags_row(text@),
{
    let c = chars_of(text);
    begins(&lowered(&trimmed_start(&c)), "tags")
}

/// Whether a genre is among genres, whatever its case.
fn knows_genre(genres: &[String], g: &[char]) -> (r: bool)
    ensures
        r == has_genre(crate::text::views(genres@), g@),
{
    let want = lowered(g);
    let mut i: usize = 0;
    while i < genres.len()
        invariant
            i <= genres@.len(),
            want@ == crate::text::lower(g@),
            forall|j: int|
                0 <= j < i ==> crate::text::lower((#[trigger] genres@[j])@) != crate::text::lower(
                    g@,
                ),
        decreases genres@.len() - i,
    {
        let have = lowered(&chars_of(&genres[i]));
        if same_chars(&have, &want) {
            assert(crate::text::lower(crate::text::views(genres@)[i as int]) == crate::text::lower(
                g@,
            ));
            return true;
        }
        i += 1;
    }
    assert forall|j: int| 0 <= j < genres@.len() implies crate::text::lower(
        #[trigger] crate::text::views(genres@)[j],
    ) != crate::text::lower(g@) by {
        assert(crate::text::lower(genres@[j]@) != crate::text::lower(g@));
    }
    false
}

/// The genre that a link names.
fn link_genre(e: &Element) -> (r: Vec<char>)
    ensures
        r@ == genre_of_link(element_view(*e)),
{
    let t = trimmed(&chars_of(&e.text));
    if t.len() > 0 {
        t
    } else {
        let href: Vec<char> = match &e.href {
            Some(h) => chars_of(h),
            None => Vec::new(),
        };
        proof {
            if e.href is None {
                assert(href@ =~= Seq::<char>::empty());
            }
        }
        replaced_char(&stripped_all(&href, "/browse/"), '-', ' ')
    }
}

/// The genres that the links of a row of tags name, each once.
pub fn tag_genres(links: &[Element]) -> (r: Vec<String>)
    ensures
        crate::text::views(r@) == genres_of(element_views(links@)),
{
    let ghost lv = element_views(links@);
    let mut r: Vec<String> = Vec::new();
    let mut i: usize = 0;
    assert(lv.take(0) =~= Seq::empty());
    assert(crate::text::views(r@) =~= Seq::empty());
    while i < links.len()
        invariant
            i <= links@.len(),
            lv == element_views(links@),
            crate::text::views(r@) == genres_of(lv.take(i as int)),
        decreases links@.len() - i,
    {
        let ghost had = r@;
        proof {
            assert(lv.take(i + 1).drop_last() =~= lv.take(i as int));
            assert(lv[i as int] == element_view(links@[i as int]));
        }
        let g = link_genre(&links[i]);
        if g.len() > 0 && !knows_genre(&r, &g) {
            let t = string_of(&g);
            r.push(t);
            assert(crate::text::views(r@) =~= crate::text::views(had).push(t@));
        }
        i += 1;
    }
    assert(lv.take(i as int) =~= lv);
    r
}

/// Genre: the tags from OpenRetro's `Tags:` info row only. Scoping to that row is
/// deliberate — collecting every `/browse/` link would also pull in publisher,
/// developer and year facets (e.g. `/browse/1990`) and write them into the genre.
pub fn extract_genre(html: &str) -> (r: Option<String>)
    ensures
        crate::text::opt_view(r) == page_genre(html@),
{
    let rows = match select(html, ".game-info-row") {
        None => {
            return None;
        },
        Some(rows) => rows,
    };
    let ghost rv = element_views(rows@);
    let mut i: usize = 0;
    while i < rows.len()
        invariant
            i <= rows@.len(),
            rv == element_views(rows@),
            selected(html@, ".game-info-row"@) == Some(rv),
            genre_from(html@, rv, 0) == genre_from(html@, rv, i as int),
        decreases rows@.len() - i,
    {
        assert(rv[i as int] == element_view(rows@[i as int]));
        if row_of_tags(&rows[i].text) {
            let links = match select_within(html, ".game-info-row", i, "a[href^=\"/browse/\"]") {
                None => {
                    return None;
                },
                Some(links) => links,
            };
            let genres = tag_genres(&links);
            assert(crate::text::views(genres@).len() == genres@.len());
            if genres.len() > 0 {
                return Some(join_strings(&genres, ", "));
            }
        }
        i += 1;
    }
    None
}

// --- The screenshots --------------------------------------------------------

/// The hash of the screenshot that a link enlarges, if it does.
pub open spec fn shot_hash(href: Seq<char>) -> Option<Seq<char>> {
    let parts = crate::text::split_text(href, "/image/"@);
    if !crate::text::contains_text(href, "s=2x"@) || parts.len() < 2 {
        None
    } else {
        crate::edition::unless_empty(
            crate::text::before(crate::text::before(parts[1], '?'), '/'),
        )
    }
}

/// The hashes of the screenshots that links enlarge, each once.
pub open spec fn shot_hashes(
    links: Seq<(Seq<char>, Option<Seq<char>>, Option<Seq<char>>)>,
) -> Seq<Seq<char>>
    decreases links.len(),
{
    if links.len() == 0 {
        Seq::empty()
    } else {
        let rest = shot_hashes(links.drop_last());
        let href = match links.last().1 {
            Some(h) => h,
            None => Seq::empty(),
        };
        match shot_hash(href) {
            Some(h) => if rest.contains(h) {
                rest
            } else {
                rest.push(h)
            },
            None => rest,
        }
    }
}

/// The screenshots of hashes on a site.
pub open spec fn shots_of(base: Seq<char>, hashes: Seq<Seq<char>>) -> Seq<
    crate::enrich::LinkFields,
> {
    Seq::new(
        hashes.len(),
        |i: int|
            crate::enrich::LinkFields {
                url: base + "/image/"@ + hashes[i],
                caption: None,
                source: SOURCE@,
            },
    )
}

/// The screenshots on a page.
pub open spec fn page_shots(html: Seq<char>, base: Seq<char>) -> Seq<crate::enrich::LinkFields> {
    match selected(html, "a[href*=\"/image/\"]"@) {
        None => Seq::empty(),
        Some(links) => shots_of(base, shot_hashes(links)),
    }
}

/// The hash of the screenshot that a link enlarges, if it does.
pub fn screenshot_hash(href: &str) -> (r: Option<String>)
    ensures
        crate::text::opt_view(r) == shot_hash(href@),
{
    let c = chars_of(href);
    if !has_text(&c, "s=2x") {
        // Not a screenshot enlarge link (covers use s=512, etc.).
        return None;
    }
    let parts = split_on_text(&c, "/image/");
    let ghost pv = crate::text::parts_view(parts@);
    assert(pv.len() == parts@.len());
    if parts.len() < 2 {
        return None;
    }
    assert(pv[1] == parts@[1]@);
    let hash = cut_before(&cut_before(&parts[1], '?'), '/');
    if hash.len() == 0 {
        None
    } else {
        Some(string_of(&hash))
    }
}

/// The hashes of the screenshots that links enlarge, each once.
fn link_hashes(links: &[Element]) -> (r: Vec<String>)
    ensures
        crate::text::views(r@) == shot_hashes(element_views(links@)),
{
    let ghost lv = element_views(links@);
    let mut r: Vec<String> = Vec::new();
    let mut i: usize = 0;
    assert(lv.take(0) =~= Seq::empty());
    assert(crate::text::views(r@) =~= Seq::empty());
    while i < links.len()
        invariant
            i <= links@.len(),
            lv == element_views(links@),
            crate::text::views(r@) == shot_hashes(lv.take(i as int)),
        decreases links@.len() - i,
    {
        let ghost had = r@;
        proof {
            assert(lv.take(i + 1).drop_last() =~= lv.take(i as int));
            assert(lv[i as int] == element_view(links@[i as int]));
        }
        let href = match &links[i].href {
            Some(h) => owned(h),
            None => {
                let none = String::new();
                assert(none@ =~= Seq::<char>::empty());
                none
            },
        };
        if let Some(h) = screenshot_hash(&href) {
            if !lists_text(&r, &h) {
                let ghost hv = h@;
                r.push(h);
                assert(crate::text::views(r@) =~= crate::text::views(had).push(hv));
            }
        }
        i += 1;
    }
    assert(lv.take(i as int) =~= lv);
    r
}

/// The screenshots that links enlarge. Screenshots are wrapped in
/// `<a href="/image/{hash}?s=2x">`; cover art uses a different size param
/// (`?s=512`), so keying on `s=2x` excludes covers, avatars, logos and related-
/// game thumbnails. Dedup by hash; download the full-size original.
pub fn link_shots(links: &[Element], base: &str) -> (r: Vec<Shot>)
    ensures
        crate::enrich::link_views(r@) == shots_of(base@, shot_hashes(element_views(links@))),
{
    let hashes = link_hashes(links);
    let ghost hv = crate::text::views(hashes@);
    let mut r: Vec<Shot> = Vec::new();
    let mut i: usize = 0;
    while i < hashes.len()
        invariant
            i <= hashes@.len(),
            hv == crate::text::views(hashes@),
            r@.len() == i,
            forall|j: int| 0 <= j < i ==> (#[trigger] r@[j])@ == shots_of(base@, hv)[j],
        decreases hashes@.len() - i,
    {
        let prefix = concat(base, "/image/");
        assert(hv[i as int] == hashes@[i as int]@);
        r.push(Shot { url: concat(&prefix, &hashes[i]), caption: None, source: owned(SOURCE) });
        i += 1;
    }
    assert(crate::enrich::link_views(r@) =~= shots_of(base@, hv));
    r
}

/// Screenshot image URLs from the page's lightbox links.
pub fn extract_shots(html: &str, base: &str) -> (r: Vec<Shot>)
    ensures
        crate::enrich::link_views(r@) == page_shots(html@, base@),
{
    match select(html, "a[href*=\"/image/\"]") {
        None => {
            let r: Vec<Shot> = Vec::new();
            assert(crate::enrich::link_views(r@) =~= Seq::empty());
            r
        },
        Some(links) => link_shots(&links, base),
    }
}

// --- A game page ------------------------------------------------------------

/// Whether scoring two titles may give this.
pub open spec fn may_score<F: Fn(&str, &str) -> u32>(
    score: F,
    a: Seq<char>,
    b: Seq<char>,
    s: u32,
) -> bool {
    exists|x: &str, y: &str| x@ == a && y@ == b && #[trigger] call_ensures(score, (x, y), s)
}

/// What a game page gives, given the score of its title.
pub open spec fn page_result(
    html: Seq<char>,
    base: Seq<char>,
    url: Seq<char>,
    score: u32,
) -> Option<crate::enrich::ResultFields> {
    if crate::enrich::clears_floor(score) {
        Some(
            crate::enrich::ResultFields {
                source: SOURCE@,
                external_url: Some(url),
                description: page_description(html),
                genre: page_genre(html),
                year: None,
                shots: page_shots(html, base),
                score,
            },
        )
    } else {
        None
    }
}

/// What an optional result holds.
pub open spec fn result_view(r: Option<ProviderResult>) -> Option<crate::enrich::ResultFields> {
    match r {
        Some(x) => Some(x@),
        None => None,
    }
}

/// What a game page gives, given the score of its title: nothing if the title is too
/// weak a match.
pub fn scored_page(html: &str, base: &str, url: &str, score: u32) -> (r: Option<ProviderResult>)
    ensures
        result_view(r) == page_result(html@, base@, url@, score),
{
    if !is_accepted(score) {
        return None;
    }
    let genre = extract_genre(html);
    let description = extract_description(html);
    let shots = extract_shots(html, base);
    Some(
        ProviderResult {
            source: owned(SOURCE),
            external_url: Some(owned(url)),
            description,
            genre,
            year: None,
            shots,
            score,
        },
    )
}

/// Whether this is what a game page gives for a query.
pub open spec fn is_page_result<F: Fn(&str, &str) -> u32>(
    html: Seq<char>,
    base: Seq<char>,
    query: Seq<char>,
    url: Seq<char>,
    score: F,
    r: Option<crate::enrich::ResultFields>,
) -> bool {
    exists|s: u32| #[trigger]
        may_score(score, query, page_title(html), s) && r == page_result(html, base, url, s)
}

/// Parse an OpenRetro game page into a [`ProviderResult`], scoring the page's own
/// title against the query. Returns `None` if the page title is too weak a match.
/// `score` gives the similarity of two titles, as the bits of a single-precision
/// number.
pub fn parse_game_page<F: Fn(&str, &str) -> u32>(
    html: &str,
    base: &str,
    query_name: &str,
    url: &str,
    score: &F,
) -> (r: Option<ProviderResult>)
    requires
        forall|a: &str, b: &str| #[trigger] call_requires(*score, (a, b)),
    ensures
        is_page_result(html@, base@, query_name@, url@, *score, result_view(r)),
{
    let title = extract_page_title(html);
    let s = score(query_name, &title);
    assert(may_score(*score, query_name@, page_title(html@), s));
    scored_page(html, base, url, s)
}

// --- The browse index -------------------------------------------------------

/// The slug that a link of the browse index leads to, if it leads to a game.
pub open spec fn link_slug(href: Seq<char>) -> Option<Seq<char>> {
    let s = crate::text::strip_char_end(
        crate::text::strip_char_start(crate::text::strip_all(href, "/amiga/"@), '/'),
        '/',
    );
    if s.len() == 0 || crate::text::find_char(s, '/') is Some {
        None
    } else {
        Some(s)
    }
}

/// What a link is called: its text, or its slug where it has none.
pub open spec fn link_label(text: Seq<char>, slug: Seq<char>) -> Seq<char> {
    if crate::text::trim(text).len() == 0 {
        crate::text::replace_char(slug, '-', ' ')
    } else {
        text
    }
}

/// The games that links lead to: their slugs and what they are called.
pub open spec fn candidates_of(
    links: Seq<(Seq<char>, Option<Seq<char>>, Option<Seq<char>>)>,
) -> Seq<(Seq<char>, Seq<char>)>
    decreases links.len(),
{
    if links.len() == 0 {
        Seq::empty()
    } else {
        let rest = candidates_of(links.drop_last());
        let e = links.last();
        let href = match e.1 {
            Some(h) => h,
            None => Seq::empty(),
        };
        match link_slug(href) {
            Some(s) => rest.push((s, link_label(e.0, s))),
            None => rest,
        }
    }
}

/// The position of the highest of the first `n` scores, the first of several as high.
pub open spec fn best_of(scores: Seq<u32>, n: nat) -> Option<int>
    decreases n,
{
    if n == 0 {
        None
    } else {
        let i = n - 1;
        match best_of(scores, (n - 1) as nat) {
            None => Some(i),
            Some(b) => if crate::enrich::higher(scores[i], scores[b]) {
                Some(i)
            } else {
                Some(b)
            },
        }
    }
}

/// The slug to look at, given what each candidate scored: that of the best, where it
/// is accepted.
pub open spec fn best_slug(candidates: Seq<(Seq<char>, Seq<char>)>, scores: Seq<u32>) -> Option<
    Seq<char>,
> {
    match best_of(scores, scores.len()) {
        Some(b) => if crate::enrich::clears_floor(scores[b]) {
            Some(candidates[b].0)
        } else {
            None
        },
        None => None,
    }
}

/// What candidates hold.
pub open spec fn candidate_views(c: Seq<(String, String)>) -> Seq<(Seq<char>, Seq<char>)> {
    c.map_values(|x: (String, String)| (x.0@, x.1@))
}

/// The slug that a link of the browse index leads to, if it leads to a game.
pub fn slug_of_link(href: &str) -> (r: Option<String>)
    ensures
        crate::text::opt_view(r) == link_slug(href@),
{
    let c = chars_of(href);
    let s = stripped_char(&stripped_all(&c, "/amiga/"), '/');
    let slash = crate::text::find_char_at(&s, '/');
    if s.len() == 0 || slash.is_some() {
        None
    } else {
        Some(string_of(&s))
    }
}

/// The games that the links of a browse index lead to: their slugs and what they are
/// called. Cover links carry no text; the slug itself is their label.
pub fn index_candidates(links: &[Element]) -> (r: Vec<(String, String)>)
    ensures
        candidate_views(r@) == candidates_of(element_views(links@)),
{
    let ghost lv = element_views(links@);
    let mut r: Vec<(String, String)> = Vec::new();
    let mut i: usize = 0;
    assert(lv.take(0) =~= Seq::empty());
    assert(candidate_views(r@) =~= Seq::empty());
    while i < links.len()
        invariant
            i <= links@.len(),
            lv == element_views(links@),
            candidate_views(r@) == candidates_of(lv.take(i as int)),
        decreases links@.len() - i,
    {
        let ghost had = r@;
        let e = &links[i];
        proof {
            assert(lv.take(i + 1).drop_last() =~= lv.take(i as int));
            assert(lv[i as int] == element_view(*e));
        }
        let href = match &e.href {
            Some(h) => owned(h),
            None => {
                let none = String::new();
                assert(none@ =~= Seq::<char>::empty());
                none
            },
        };
        if let Some(s) = slug_of_link(&href) {
            let text = chars_of(&e.text);
            let label = if trimmed(&text).len() == 0 {
                string_of(&replaced_char(&chars_of(&s), '-', ' '))
            } else {
                owned(&e.text)
            };
            let c = (s, label);
            r.push(c);
            assert(candidate_views(r@) =~= candidate_views(had).push((c.0@, c.1@)));
        }
        i += 1;
    }
    assert(lv.take(i as int) =~= lv);
    r
}

/// Pick the best-scoring candidate, where it is accepted.
pub fn pick_slug(candidates: &[(String, String)], scores: &[u32]) -> (r: Option<String>)
    requires
        candidates@.len() == scores@.len(),
    ensures
        crate::text::opt_view(r) == best_slug(candidate_views(candidates@), scores@),
{
    let mut best: Option<usize> = None;
    let mut n: usize = 0;
    while n < scores.len()
        invariant
            n <= scores@.len(),
            crate::text::at(best) == best_of(scores@, n as nat),
            best matches Some(b) ==> b < n,
        decreases scores@.len() - n,
    {
        best = match best {
            None => Some(n),
            Some(b) => if is_higher(scores[n], scores[b]) {
                Some(n)
            } else {
                Some(b)
            },
        };
        n += 1;
    }
    match best {
        Some(b) => {
            assert(candidate_views(candidates@)[b as int] == (
                candidates@[b as int].0@,
                candidates@[b as int].1@,
            ));
            if is_accepted(scores[b]) {
                Some(owned(&candidates[b].0))
            } else {
                None
            }
        },
        None => None,
    }
}

/// Whether these are what candidates may score against a name.
pub open spec fn are_scores<F: Fn(&str, &str) -> u32>(
    score: F,
    name: Seq<char>,
    candidates: Seq<(Seq<char>, Seq<char>)>,
    scores: Seq<u32>,
) -> bool {
    &&& scores.len() == candidates.len()
    &&& forall|i: int|
        0 <= i < scores.len() ==> may_score(score, name, candidates[i].1, #[trigger] scores[i])
}

/// Whether this is the slug that a browse index gives for a name.
pub open spec fn is_best_match<F: Fn(&str, &str) -> u32>(
    html: Seq<char>,
    name: Seq<char>,
    score: F,
    r: Option<Seq<char>>,
) -> bool {
    match selected(html, "a[href^=\"/amiga/\"]"@) {
        None => r is None,
        Some(links) => exists|scores: Seq<u32>| #[trigger]
            are_scores(score, name, candidates_of(links), scores) && r == best_slug(
                candidates_of(links),
                scores,
            ),
    }
}

/// Pick the best-scoring `/amiga/{slug}` link from a browse index page.
pub fn best_match_slug<F: Fn(&str, &str) -> u32>(html: &str, name: &str, score: &F) -> (r: Option<
    String,
>)
    requires
        forall|a: &str, b: &str| #[trigger] call_requires(*score, (a, b)),
    ensures
        is_best_match(html@, name@, *score, crate::text::opt_view(r)),
{
    let links = match select(html, "a[href^=\"/amiga/\"]") {
        None => {
            return None;
        },
        Some(links) => links,
    };
    let candidates = index_candidates(&links);
    let ghost cv = candidate_views(candidates@);
    let mut scores: Vec<u32> = Vec::new();
    let mut i: usize = 0;
    while i < candidates.len()
        invariant
            i <= candidates@.len(),
            cv == candidate_views(candidates@),
            forall|a: &str, b: &str| #[trigger] call_requires(*score, (a, b)),
            scores@.len() == i,
            forall|j: int|
                0 <= j < i ==> may_score(*score, name@, cv[j].1, #[trigger] scores@[j]),
        decreases candidates@.len() - i,
    {
        let s = score(name, &candidates[i].1);
        assert(cv[i as int].1 == candidates@[i as int].1@);
        assert(may_score(*score, name@, cv[i as int].1, s));
        scores.push(s);
        i += 1;
    }
    assert(are_scores(*score, name@, cv, scores@));
    pick_slug(&candidates, &scores)
}

// --- A lookup ---------------------------------------------------------------

/// The address of a game page.
pub open spec fn game_url_of(base: Seq<char>, slug: Seq<char>) -> Seq<char> {
    base + "/amiga/"@ + slug
}

/// The address of a page of the browse index.
pub open spec fn browse_url_of(base: Seq<char>, letter: char) -> Seq<char> {
    base + "/browse/amiga/"@ + seq![letter]
}

/// How far a lookup has come: which page is asked for next.
#[derive(Debug, Clone, PartialEq, Eq)]
pub enum LookupState {
    /// The page at the title's own slug.
    Direct { url: String },
    /// The page of the browse index for its letter.
    Browse { url: String },
    /// The page of the best match in the index.
    Best { url: String },
}

/// What to do next in a lookup.
#[derive(Debug, Clone)]
pub enum LookupStep {
    /// Ask for another page.
    Fetch(LookupState),
    /// The lookup is over.
    Done(Option<ProviderResult>),
}

impl LookupState {
    /// The address of the page to ask for.
    pub open spec fn address(self) -> Seq<char> {
        match self {
            LookupState::Direct { url } => url@,
            LookupState::Browse { url } => url@,
            LookupState::Best { url } => url@,
        }
    }

    /// The address of the page to ask for.
    pub fn url(&self) -> (r: String)
        ensures
            r@ == self.address(),
    {
        match self {
            LookupState::Direct { url } => owned(url),
            LookupState::Browse { url } => owned(url),
            LookupState::Best { url } => owned(url),
        }
    }
}

/// Whether a step asks for the browse index of a name.
pub open spec fn asks_index(base: Seq<char>, name: Seq<char>, step: LookupStep) -> bool {
    step matches LookupStep::Fetch(s) && s is Browse && s.address() == browse_url_of(
        base,
        first_letter(crate::enrich::matching::normalized(name), 0),
    )
}

/// Whether this is the step after the page at the title's own slug.
pub open spec fn is_after_direct<F: Fn(&str, &str) -> u32>(
    base: Seq<char>,
    name: Seq<char>,
    url: Seq<char>,
    html: Seq<char>,
    score: F,
    step: LookupStep,
) -> bool {
    exists|r: Option<crate::enrich::ResultFields>| #[trigger]
        is_page_result(html, base, name, url, score, r) && if r is Some {
            step matches LookupStep::Done(d) && result_view(d) == r
        } else {
            asks_index(base, name, step)
        }
}

/// Whether this is the step after a page of the browse index.
pub open spec fn is_after_index<F: Fn(&str, &str) -> u32>(
    base: Seq<char>,
    name: Seq<char>,
    html: Seq<char>,
    score: F,
    step: LookupStep,
) -> bool {
    exists|slug: Option<Seq<char>>| #[trigger]
        is_best_match(html, name, score, slug) && match slug {
            Some(s) => step matches LookupStep::Fetch(n) && n is Best && n.address()
                == game_url_of(base, s),
            None => step matches LookupStep::Done(d) && d is None,
        }
}

/// Whether this is the step after the page of the best match.
pub open spec fn is_after_best<F: Fn(&str, &str) -> u32>(
    base: Seq<char>,
    name: Seq<char>,
    url: Seq<char>,
    html: Seq<char>,
    score: F,
    step: LookupStep,
) -> bool {
    step matches LookupStep::Done(d) && is_page_result(
        html,
        base,
        name,
        url,
        score,
        result_view(d),
    )
}

/// Whether this is the next step of a lookup, given the page that was asked for; there
/// may be no such page.
pub open spec fn is_next<F: Fn(&str, &str) -> u32>(
    base: Seq<char>,
    name: Seq<char>,
    state: LookupState,
    page: Option<Seq<char>>,
    score: F,
    step: LookupStep,
) -> bool {
    match page {
        None => if state is Direct {
            asks_index(base, name, step)
        } else {
            step matches LookupStep::Done(d) && d is None
        },
        Some(html) => match state {
            LookupState::Direct { url } => is_after_direct(base, name, url@, html, score, step),
            LookupState::Browse { url } => is_after_index(base, name, html, score, step),
            LookupState::Best { url } => is_after_best(base, name, url@, html, score, step),
        },
    }
}

impl OpenRetro {
    /// The stable identifier recorded with what this source gives.
    pub fn name(&self) -> (r: &'static str)
        ensures
            r@ == SOURCE@,
    {
        SOURCE
    }

    /// Whether the provider is usable: it needs no credentials.
    pub fn available(&self) -> (r: bool)
        ensures
            r,
    {
        true
    }

    /// The address of a game page.
    fn game_url(&self, slug: &str) -> (r: String)
        ensures
            r@ == game_url_of(self.base@, slug@),
    {
        let prefix = concat(&self.base, "/amiga/");
        concat(&prefix, slug)
    }

    /// Start to look a title up: with a direct slug hit.
    pub fn lookup(&self, name: &str) -> (r: LookupState)
        ensures
            r is Direct,
            r.address() == game_url_of(self.base@, slug_of(name@)),
    {
        LookupState::Direct { url: self.game_url(&slug(name)) }
    }

    /// Fall back to scanning the per-letter browse index for the best-scoring title.
    fn browse(&self, name: &str) -> (step: LookupStep)
        ensures
            asks_index(self.base@, name@, step),
    {
        let mut c = chars_of(&self.base);
        append_text(&mut c, "/browse/amiga/");
        let ghost head = c@;
        let letter = index_letter(name);
        c.push(letter);
        assert(c@ =~= head + seq![letter]);
        LookupStep::Fetch(LookupState::Browse { url: string_of(&c) })
    }

    /// The step after the page at the title's own slug.
    fn after_direct<F: Fn(&str, &str) -> u32>(
        &self,
        name: &str,
        url: &str,
        html: &str,
        score: &F,
    ) -> (step: LookupStep)
        requires
            forall|a: &str, b: &str| #[trigger] call_requires(*score, (a, b)),
        ensures
            is_after_direct(self.base@, name@, url@, html@, *score, step),
    {
        match parse_game_page(html, &self.base, name, url, score) {
            Some(x) => {
                assert(is_page_result(html@, self.base@, name@, url@, *score, Some(x@)));
                LookupStep::Done(Some(x))
            },
            None => {
                assert(is_page_result(html@, self.base@, name@, url@, *score, None));
                self.browse(name)
            },
        }
    }

    /// The step after a page of the browse index.
    fn after_index<F: Fn(&str, &str) -> u32>(&self, name: &str, html: &str, score: &F) -> (step:
        LookupStep)
        requires
            forall|a: &str, b: &str| #[trigger] call_requires(*score, (a, b)),
        ensures
            is_after_index(self.base@, name@, html@, *score, step),
    {
        match best_match_slug(html, name, score) {
            Some(s) => {
                assert(is_best_match(html@, name@, *score, Some(s@)));
                LookupStep::Fetch(LookupState::Best { url: self.game_url(&s) })
            },
            None => {
                assert(is_best_match(html@, name@, *score, None));
                LookupStep::Done(None)
            },
        }
    }

    /// Go on with a lookup, given the page that was asked for, if there is one.
    pub fn next_step<F: Fn(&str, &str) -> u32>(
        &self,
        name: &str,
        state: &LookupState,
        page: Option<&str>,
        score: &F,
    ) -> (step: LookupStep)
        requires
            forall|a: &str, b: &str| #[trigger] call_requires(*score, (a, b)),
        ensures
            is_next(
                self.base@,
                name@,
                *state,
                crate::text::opt_str_view(page),
                *score,
                step,
            ),
    {
        match page {
            None => match state {
                LookupState::Direct { url } => self.browse(name),
                _ => LookupStep::Done(None),
            },
            Some(html) => match state {
                LookupState::Direct { url } => self.after_direct(name, url, html, score),
                LookupState::Browse { url } => self.after_index(name, html, score),
                LookupState::Best { url } => LookupStep::Done(
                    parse_game_page(html, &self.base, name, url, score),
                ),
            },
        }
    }
}

// --- Laws -------------------------------------------------------------------

/// How many pages a lookup may still ask for.
pub open spec fn pages_left(state: LookupState) -> nat {
    match state {
        LookupState::Direct { .. } => 3,
        LookupState::Browse { .. } => 2,
        LookupState::Best { .. } => 1,
    }
}

/// A lookup ends: every step either ends it or leaves fewer pages to ask for, so it
/// asks for three at most.
pub proof fn lookup_ends<F: Fn(&str, &str) -> u32>(
    base: Seq<char>,
    name: Seq<char>,
    state: LookupState,
    page: Option<Seq<char>>,
    score: F,
    step: LookupStep,
)
    requires
        is_next(base, name, state, page, score, step),
    ensures
        step matches LookupStep::Fetch(s) ==> pages_left(s) < pages_left(state),
{
}

/// A page whose title is too weak a match gives nothing, and a page that gives
/// something is a result that will be merged.
pub proof fn weak_pages_are_rejected(
    html: Seq<char>,
    base: Seq<char>,
    url: Seq<char>,
    score: u32,
)
    ensures
        page_result(html, base, url, score) is Some <==> crate::enrich::clears_floor(score),
        page_result(html, base, url, score) matches Some(r) ==> r.score == score,
{
}

/// The best candidate scores no less than any other.
pub proof fn best_candidate_is_highest(scores: Seq<u32>, n: nat)
    requires
        n <= scores.len(),
        forall|i: int| 0 <= i < scores.len() ==> !crate::enrich::is_nan(#[trigger] scores[i]),
    ensures
        match best_of(scores, n) {
            None => n == 0,
            Some(b) => 0 <= b < n && forall|i: int|
                0 <= i < n ==> !crate::enrich::higher(#[trigger] scores[i], scores[b]),
        },
    decreases n,
{
    if n > 0 {
        best_candidate_is_highest(scores, (n - 1) as nat);
    }
}

/// The letter that a name is indexed under is its first ASCII letter, or `0` where it has none.
pub proof fn index_letter_is_the_first(s: Seq<char>, i: int)
    requires
        0 <= i <= s.len(),
        forall|j: int| 0 <= j < i ==> !crate::text::is_lower(#[trigger] s[j])
            && !crate::text::is_upper(s[j]),
    ensures
        i == s.len() ==> first_letter(s, 0) == '0',
        i < s.len() && (crate::text::is_lower(s[i]) || crate::text::is_upper(s[i]))
            ==> first_letter(s, 0) == s[i],
{
    lemma_letter_from(s, 0, i);
}

/// A search for a letter goes past what is none.
proof fn lemma_letter_from(s: Seq<char>, k: int, i: int)
    requires
        0 <= k <= i <= s.len(),
        forall|j: int| 0 <= j < i ==> !crate::text::is_lower(#[trigger] s[j])
            && !crate::text::is_upper(s[j]),
    ensures
        first_letter(s, k) == first_letter(s, i),
    decreases i - k,
{
    if k < i {
        assert(!crate::text::is_lower(s[k]) && !crate::text::is_upper(s[k]));
        lemma_letter_from(s, k + 1, i);
    }
}

/// A page's title is its name without what follows a bar and without the platform.
pub proof fn page_title_is_the_name(t: Seq<char>, rest: Seq<char>)
    requires
        crate::text::no_outer_space(t),
        t.len() > 0,
        !t.contains('|'),
    ensures
        clean_title(t + " Amiga"@) == t,
        clean_title((t + " Amiga"@).push('|') + rest) == t,
        !crate::text::ends_with(t, " Amiga"@) ==> clean_title(t) == t && clean_title(
            t.push('|') + rest,
        ) == t,
{
    reveal_strlit(" Amiga");
    let s = " Amiga"@;
    assert(s.len() == 6);
    assert(s[0] == ' ' && s[1] == 'A' && s[2] == 'm' && s[3] == 'i' && s[4] == 'g' && s[5] == 'a');
    let u = t + s;
    assert(!u.contains('|')) by {
        if u.contains('|') {
            let i = choose|i: int| 0 <= i < u.len() && u[i] == '|';
            if i < t.len() {
                assert(t[i] == '|');
            } else {
                assert(u[i] == s[i - t.len()]);
            }
        }
    }
    crate::text::splitting_cuts_at_the_first(u, '|', rest);
    crate::text::splitting_cuts_at_the_first(t, '|', rest);
    let e = Seq::<char>::empty();
    assert(e + u + e =~= u);
    assert(e + t + e =~= t);
    assert(u[0] == t[0]);
    assert(u.last() == 'a');
    crate::text::trimming_is_exact(e, u, e);
    crate::text::trimming_is_exact(e, t, e);
    crate::text::stripping_takes_every_copy(t, s, 'x');
}

/// A text is a description where it is at least forty bytes long, and the first that is one is
/// taken.
pub proof fn first_long_text_describes(
    t: Seq<char>,
    a: Option<Seq<char>>,
    b: Option<Seq<char>>,
    c: Option<Seq<char>>,
    d: Option<Seq<char>>,
)
    ensures
        if_long(t) is Some <==> vstd::utf8::encode_utf8(t).len() >= 40,
        if_long(t) matches Some(x) ==> x == t,
        a is Some ==> first_of(a, b, c, d) == a,
        a is None && b is Some ==> first_of(a, b, c, d) == b,
        a is None && b is None && c is Some ==> first_of(a, b, c, d) == c,
        a is None && b is None && c is None ==> first_of(a, b, c, d) == d,
{
}

/// A link's genre is its text, trimmed; where that is blank it is the end of its address, with
/// spaces for dashes.
pub proof fn genre_is_the_text_of_its_link(
    text: Seq<char>,
    tail: Seq<char>,
    content: Option<Seq<char>>,
)
    requires
        !crate::text::starts_with(tail, "/browse/"@),
    ensures
        crate::text::trim(text).len() > 0 ==> genre_of_link((text, Some("/browse/"@ + tail), content))
            == crate::text::trim(text),
        crate::text::trim(text).len() == 0 ==> genre_of_link(
            (text, Some("/browse/"@ + tail), content),
        ) == crate::text::replace_char(tail, '-', ' '),
{
    reveal_strlit("/browse/");
    assert("/browse/"@.len() == 8);
    crate::text::stripping_takes_every_copy(tail, "/browse/"@, 'x');
}

/// Genres are listed once each, in any case, where they first come; a blank one is none.
pub proof fn genres_are_listed_once(
    links: Seq<(Seq<char>, Option<Seq<char>>, Option<Seq<char>>)>,
    link: (Seq<char>, Option<Seq<char>>, Option<Seq<char>>),
)
    ensures
        genres_of(Seq::empty()).len() == 0,
        genre_of_link(link).len() == 0 ==> genres_of(links.push(link)) == genres_of(links),
        genre_of_link(link).len() > 0 && (exists|i: int|
            0 <= i < genres_of(links).len() && crate::text::lower(#[trigger] genres_of(links)[i])
                == crate::text::lower(genre_of_link(link))) ==> genres_of(links.push(link))
            == genres_of(links),
        genre_of_link(link).len() > 0 && !(exists|i: int|
            0 <= i < genres_of(links).len() && crate::text::lower(#[trigger] genres_of(links)[i])
                == crate::text::lower(genre_of_link(link))) ==> genres_of(links.push(link))
            == genres_of(links).push(genre_of_link(link)),
        forall|i: int, j: int|
            0 <= i < j < genres_of(links).len() ==> crate::text::lower(
                #[trigger] genres_of(links)[i],
            ) != crate::text::lower(#[trigger] genres_of(links)[j]),
{
    assert(links.push(link).drop_last() =~= links);
    lemma_genres_differ(links);
}

/// No two genres are the same in any case.
proof fn lemma_genres_differ(links: Seq<(Seq<char>, Option<Seq<char>>, Option<Seq<char>>)>)
    ensures
        forall|i: int, j: int|
            0 <= i < j < genres_of(links).len() ==> crate::text::lower(
                #[trigger] genres_of(links)[i],
            ) != crate::text::lower(#[trigger] genres_of(links)[j]),
    decreases links.len(),
{
    if links.len() > 0 {
        lemma_genres_differ(links.drop_last());
        let rest = genres_of(links.drop_last());
        let all = genres_of(links);
        assert forall|i: int, j: int| 0 <= i < j < all.len() implies crate::text::lower(
            #[trigger] all[i],
        ) != crate::text::lower(#[trigger] all[j]) by {
            assert(all[i] == rest[i]);
            if j < rest.len() {
                assert(all[j] == rest[j]);
            }
        }
    }
}

/// The genres of a page are those of the first row of tags that has any, with commas between
/// them; a row is one of tags where it begins with that word, in any case.
pub proof fn first_row_of_tags_gives_the_genres(
    html: Seq<char>,
    rows: Seq<(Seq<char>, Option<Seq<char>>, Option<Seq<char>>)>,
    links: Seq<(Seq<char>, Option<Seq<char>>, Option<Seq<char>>)>,
    i: int,
)
    requires
        0 <= i < rows.len() <= usize::MAX,
        exists|rest: Seq<char>|
            crate::text::lower(crate::text::trim_start(rows[i].0)) == #[trigger] ("tags"@ + rest),
        selected_within(html, ".game-info-row"@, i as usize, "a[href^=\"/browse/\"]"@) == Some(links),
        genres_of(links).len() > 0,
        forall|j: int|
            0 <= j < i ==> !crate::text::starts_with(
                crate::text::lower(crate::text::trim_start((#[trigger] rows[j]).0)),
                "tags"@,
            ),
    ensures
        genre_from(html, rows, 0) == Some(crate::text::join(genres_of(links), ", "@)),
{
    crate::text::beginnings_and_ends(
        crate::text::lower(crate::text::trim_start(rows[i].0)),
        "tags"@,
    );
    lemma_genre_past(html, rows, 0, i);
}

/// Rows that are not of tags are passed over.
proof fn lemma_genre_past(
    html: Seq<char>,
    rows: Seq<(Seq<char>, Option<Seq<char>>, Option<Seq<char>>)>,
    k: int,
    i: int,
)
    requires
        0 <= k <= i <= rows.len(),
        forall|j: int|
            0 <= j < i ==> !crate::text::starts_with(
                crate::text::lower(crate::text::trim_start((#[trigger] rows[j]).0)),
                "tags"@,
            ),
    ensures
        genre_from(html, rows, k) == genre_from(html, rows, i),
    decreases i - k,
{
    if k < i {
        assert(!is_tags_row(rows[k].0));
        lemma_genre_past(html, rows, k + 1, i);
    }
}

/// A full-size screenshot's hash is what follows `/image/` in its address, up to a question mark
/// or a slash; an address without the size mark is no screenshot.
pub proof fn screenshot_hash_follows_its_path(front: Seq<char>, hash: Seq<char>, rest: Seq<char>)
    requires
        hash.len() > 0,
        !hash.contains('?'),
        !hash.contains('/'),
        crate::text::find(front + "/image/"@ + (hash.push('?') + rest), "/image/"@) == Some(
            front.len() as int,
        ),
        crate::text::find(hash.push('?') + rest, "/image/"@) is None,
    ensures
        ({
            let href = front + "/image/"@ + (hash.push('?') + rest);
            let sized = exists|p: Seq<char>, q: Seq<char>| href == #[trigger] (p + "s=2x"@ + q);
            (sized ==> shot_hash(href) == Some(hash)) && (!sized ==> shot_hash(href) is None)
        }),
{
    let tail = hash.push('?') + rest;
    let href = front + "/image/"@ + tail;
    reveal_strlit("/image/");
    assert("/image/"@.len() == 7);
    crate::text::finding_gives_the_first_place(href, "s=2x"@);
    crate::text::splitting_by_text_cuts_at_the_first(href, "/image/"@);
    crate::text::splitting_by_text_cuts_at_the_first(tail, "/image/"@);
    assert(href.skip(front.len() + 7int) =~= tail);
    let parts = crate::text::split_text(href, "/image/"@);
    assert(parts =~= seq![href.take(front.len() as int), tail]);
    crate::text::splitting_cuts_at_the_first(hash, '?', rest);
    crate::text::splitting_cuts_at_the_first(hash, '/', rest);
}

/// Screenshots are listed once each, where they first come, and each is at its hash on the site.
pub proof fn screenshots_are_listed_once(
    links: Seq<(Seq<char>, Option<Seq<char>>, Option<Seq<char>>)>,
    text: Seq<char>,
    href: Seq<char>,
    content: Option<Seq<char>>,
    base: Seq<char>,
    hashes: Seq<Seq<char>>,
)
    ensures
        shot_hashes(Seq::empty()).len() == 0,
        shot_hash(href) is None ==> shot_hashes(links.push((text, Some(href), content)))
            == shot_hashes(links),
        shot_hash(href) matches Some(h) ==> {
            let after = shot_hashes(links.push((text, Some(href), content)));
            &&& shot_hashes(links).contains(h) ==> after == shot_hashes(links)
            &&& !shot_hashes(links).contains(h) ==> after == shot_hashes(links).push(h)
        },
        shots_of(base, hashes).len() == hashes.len(),
        forall|i: int|
            0 <= i < hashes.len() ==> (#[trigger] shots_of(base, hashes)[i]).url == base
                + "/image/"@ + hashes[i] && shots_of(base, hashes)[i].caption is None && shots_of(
                base,
                hashes,
            )[i].source == "openretro"@,
{
    assert(links.push((text, Some(href), content)).drop_last() =~= links);
}

/// A link of the index is to a game where its address is `/amiga/` and one more segment, which
/// is the game's slug, with or without a slash at the end. It is labelled with its text, or
/// with its slug, spaces for dashes, where it has none.
pub proof fn index_links_name_games(slug: Seq<char>, text: Seq<char>)
    requires
        slug.len() > 0,
        !slug.contains('/'),
    ensures
        link_slug("/amiga/"@ + slug) == Some(slug),
        link_slug("/amiga/"@ + slug.push('/')) == Some(slug),
        link_slug("/amiga/"@ + (slug.push('/') + slug)) is None,
        link_slug("/amiga/"@) is None,
        crate::text::trim(text).len() > 0 ==> link_label(text, slug) == text,
        crate::text::trim(text).len() == 0 ==> link_label(text, slug) == crate::text::replace_char(
            slug,
            '-',
            ' ',
        ),
{
    reveal_strlit("/amiga/");
    let p = "/amiga/"@;
    assert(p.len() == 7 && p[0] == '/');
    assert(slug[0] != '/') by {
        assert(slug.contains(slug[0]));
    }
    assert(slug.last() != '/') by {
        assert(slug.contains(slug[slug.len() - 1]));
    }
    let two = slug.push('/') + slug;
    lemma_not_under(slug, p);
    lemma_not_under(slug.push('/'), p);
    lemma_not_under(two, p);
    crate::text::stripping_takes_every_copy(slug, p, '/');
    crate::text::stripping_takes_every_copy(slug.push('/'), p, '/');
    crate::text::stripping_takes_every_copy(two, p, '/');
    let e = Seq::<char>::empty();
    crate::text::stripping_takes_every_copy(e, p, '/');
    assert(p + e =~= p);
    assert(slug.push('/')[0] == slug[0]);
    assert(two[0] == slug[0]);
    assert(two.last() == slug.last());
    assert(!slug.contains('/'));
    crate::text::finding_a_character(slug, '/', slug);
    assert(!crate::text::starts_with(e, p));
}

/// What does not begin with a slash does not begin with the index path.
proof fn lemma_not_under(s: Seq<char>, p: Seq<char>)
    requires
        p.len() > 0,
        p[0] == '/',
        s.len() > 0,
        s[0] != '/',
    ensures
        !crate::text::starts_with(s, p),
{
    if crate::text::starts_with(s, p) {
        assert(s.subrange(0, p.len() as int)[0] == s[0]);
    }
}

/// The candidates of an index go link by link, in order, those that are no games left out.
pub proof fn candidates_go_link_by_link(
    links: Seq<(Seq<char>, Option<Seq<char>>, Option<Seq<char>>)>,
    text: Seq<char>,
    href: Seq<char>,
    content: Option<Seq<char>>,
)
    ensures
        candidates_of(Seq::empty()).len() == 0,
        link_slug(href) is None ==> candidates_of(links.push((text, Some(href), content)))
            == candidates_of(links),
        link_slug(href) matches Some(s) ==> candidates_of(links.push((text, Some(href), content)))
            == candidates_of(links).push((s, link_label(text, s))),
{
    assert(links.push((text, Some(href), content)).drop_last() =~= links);
}

/// The first of the highest candidates is the best, and is taken where its score clears the
/// floor; where it does not, none is.
pub proof fn first_highest_candidate_is_taken(
    candidates: Seq<(Seq<char>, Seq<char>)>,
    scores: Seq<u32>,
)
    requires
        scores.len() == candidates.len(),
        forall|i: int| 0 <= i < scores.len() ==> !crate::enrich::is_nan(#[trigger] scores[i]),
    ensures
        match best_slug(candidates, scores) {
            Some(slug) => exists|b: int|
                0 <= b < scores.len() && slug == candidates[b].0 && crate::enrich::clears_floor(
                    #[trigger] scores[b],
                ) && forall|i: int|
                    0 <= i < scores.len() ==> !crate::enrich::higher(#[trigger] scores[i], scores[b])
                        && (i < b ==> crate::enrich::higher(scores[b], scores[i])),
            None => forall|i: int|
                0 <= i < scores.len() ==> !crate::enrich::clears_floor(#[trigger] scores[i]),
        },
{
    lemma_first_highest(scores, scores.len());
    if let Some(b) = best_of(scores, scores.len()) {
        if !crate::enrich::clears_floor(scores[b]) {
            assert forall|i: int| 0 <= i < scores.len() implies !crate::enrich::clears_floor(
                #[trigger] scores[i],
            ) by {
                assert(!crate::enrich::higher(scores[i], scores[b]));
            }
        } else {
            assert(candidates[b].0 == best_slug(candidates, scores)->0);
        }
    }
}

/// The best of the first scores is the first of the highest.
proof fn lemma_first_highest(scores: Seq<u32>, n: nat)
    requires
        n <= scores.len(),
        forall|i: int| 0 <= i < scores.len() ==> !crate::enrich::is_nan(#[trigger] scores[i]),
    ensures
        match best_of(scores, n) {
            None => n == 0,
            Some(b) => 0 <= b < n && forall|i: int|
                0 <= i < n ==> !crate::enrich::higher(#[trigger] scores[i], scores[b]) && (i < b
                    ==> crate::enrich::higher(scores[b], scores[i])),
        },
    decreases n,
{
    if n > 0 {
        lemma_first_highest(scores, (n - 1) as nat);
    }
}

/// A page that is good enough gives its description, genre and screenshots, under the site's
/// name and its own address, and no year.
pub proof fn page_gives_what_it_shows(
    html: Seq<char>,
    base: Seq<char>,
    url: Seq<char>,
    score: u32,
)
    requires
        crate::enrich::clears_floor(score),
    ensures
        page_result(html, base, url, score) matches Some(r) && r.source == "openretro"@
            && r.external_url == Some(url) && r.description == page_description(html) && r.genre
            == page_genre(html) && r.year is None && r.shots == page_shots(html, base) && r.score
            == score,
        page_shots(html, base) == match selected(html, "a[href*=\"/image/\"]"@) {
            Some(links) => shots_of(base, shot_hashes(links)),
            None => Seq::empty(),
        },
{
}

/// A game's page is at `/amiga/` and its slug, an index at `/browse/amiga/` and its letter.
pub proof fn pages_are_at_their_addresses(base: Seq<char>, slug: Seq<char>, letter: char)
    ensures
        game_url_of(base, slug) == base + "/amiga/"@ + slug,
        browse_url_of(base, letter) == base + "/browse/amiga/"@ + seq![letter],
{
}

/// A page's name is the text of its first heading, or of its title where that is blank or there
/// is no heading.
pub proof fn heading_outranks_title(
    h1: Seq<(Seq<char>, Option<Seq<char>>, Option<Seq<char>>)>,
    title: Seq<(Seq<char>, Option<Seq<char>>, Option<Seq<char>>)>,
)
    ensures
        h1.len() > 0 && crate::text::trim(h1[0].0).len() > 0 ==> raw_title(Some(h1), Some(title))
            == h1[0].0,
        (h1.len() == 0 || crate::text::trim(h1[0].0).len() == 0) && title.len() > 0 ==> raw_title(
            Some(h1),
            Some(title),
        ) == title[0].0,
        (h1.len() == 0 || crate::text::trim(h1[0].0).len() == 0) && title.len() == 0 ==> raw_title(
            Some(h1),
            Some(title),
        ).len() == 0,
{
}

/// A block describes by its words, with single spaces between them, and a meta element by its
/// content, trimmed; the first element that is selected is the one.
pub proof fn descriptions_are_tidied(
    elements: Seq<(Seq<char>, Option<Seq<char>>, Option<Seq<char>>)>,
)
    ensures
        elements.len() == 0 ==> block_text(Some(elements)) is None && meta_text(Some(elements)) is None,
        elements.len() > 0 ==> {
            &&& block_text(Some(elements)) == if_long(
                crate::text::join(crate::text::words(elements[0].0), " "@),
            )
            &&& elements[0].2 matches Some(c) ==> meta_text(Some(elements)) == if_long(
                crate::text::trim(c),
            )
            &&& elements[0].2 is None ==> meta_text(Some(elements)) is None
        },
        block_text(None) is None,
        meta_text(None) is None,
{
}

/// A slug is of small letters, digits and single dashes, none at its ends.
pub proof fn slugs_are_plain(name: Seq<char>)
    ensures
        slug_of(name).len() == crate::naming::sanitized(name).len(),
        forall|i: int|
            0 <= i < slug_of(name).len() ==> crate::text::is_lower(#[trigger] slug_of(name)[i])
                || crate::text::is_digit(slug_of(name)[i]) || slug_of(name)[i] == '-',
        slug_of(name) == crate::text::lower(crate::naming::sanitized(name)),
{
    let s = crate::naming::sanitized(name);
    crate::naming::lemma_sanitized_is_kebab(name);
    assert forall|i: int| 0 <= i < slug_of(name).len() implies crate::text::is_lower(
        #[trigger] slug_of(name)[i],
    ) || crate::text::is_digit(slug_of(name)[i]) || slug_of(name)[i] == '-' by {
        assert(crate::text::is_alnum(s[i]) || s[i] == '-');
        crate::text::characters_by_code_point(s[i]);
        crate::text::characters_by_code_point(slug_of(name)[i]);
    }
}

/// White space around a page's name, and before its platform, is no part of the title.
pub proof fn page_title_is_trimmed(a: Seq<char>, t: Seq<char>, b: Seq<char>)
    requires
        crate::text::all_space(a),
        crate::text::all_space(b),
        crate::text::no_outer_space(t),
        t.len() > 0,
        !(a + t + b).contains('|'),
        !crate::text::ends_with(t, " Amiga"@),
    ensures
        clean_title(a + t + b) == t,
        clean_title(t + b + " Amiga"@) == t,
{
    reveal_strlit(" Amiga");
    let s = " Amiga"@;
    assert(s.len() == 6);
    assert(s[0] == ' ' && s[1] == 'A' && s[2] == 'm' && s[3] == 'i' && s[4] == 'g' && s[5] == 'a');
    let e = Seq::<char>::empty();
    let w = a + t + b;
    crate::text::splitting_cuts_at_the_first(w, '|', e);
    crate::text::trimming_is_exact(a, t, b);
    crate::text::trimming_is_exact(e, t, e);
    assert(e + t + e =~= t);
    crate::text::stripping_takes_every_copy(t, s, 'x');
    let u = t + b + s;
    assert(!u.contains('|')) by {
        if u.contains('|') {
            let i = choose|i: int| 0 <= i < u.len() && u[i] == '|';
            if i < t.len() + b.len() {
                assert(w[a.len() + i] == u[i]);
                assert(w.contains('|'));
            } else {
                assert(u[i] == s[i - t.len() - b.len()]);
            }
        }
    }
    crate::text::splitting_cuts_at_the_first(u, '|', e);
    assert(u[0] == t[0]);
    assert(u.last() == 'a');
    crate::text::trimming_is_exact(e, u, e);
    assert(e + u + e =~= u);
    crate::text::stripping_takes_every_copy(t + b, s, 'x');
    crate::text::trimming_is_exact(e, t, b);
    assert(e + t + b =~= t + b);
}

/// A lookup ends with the page it asked for where that scores well enough, and asks for the
/// index under the name's first letter where it does not, or is not there; without an index, or
/// without a page for what the index gave, it ends with nothing.
pub proof fn lookup_goes_from_page_to_index<F: Fn(&str, &str) -> u32>(
    base: Seq<char>,
    name: Seq<char>,
    state: LookupState,
    page: Option<Seq<char>>,
    score: F,
    step: LookupStep,
)
    requires
        is_next(base, name, state, page, score, step),
    ensures
        ({
            let to_index = step matches LookupStep::Fetch(s) && s is Browse && s.address() == base
                + "/browse/amiga/"@ + seq![
                first_letter(crate::enrich::matching::normalized(name), 0),
            ];
            &&& page is None && state is Direct ==> to_index
            &&& page is None && !(state is Direct) ==> (step matches LookupStep::Done(d) && d is None)
            &&& (page matches Some(html) && state is Direct && forall|s: u32|
                may_score(score, name, page_title(html), s) ==> !#[trigger] crate::enrich::clears_floor(
                    s,
                )) ==> to_index
            &&& (page matches Some(html) && (state is Direct || state is Best) && forall|s: u32|
                may_score(score, name, page_title(html), s) ==> #[trigger] crate::enrich::clears_floor(
                    s,
                )) ==> (step matches LookupStep::Done(d) && result_view(d) is Some && (result_view(
                d,
            )->0).external_url == Some(state.address()))
            &&& state is Best ==> step is Done
        }),
{
}

/// An index that gives nothing good enough ends a lookup; one that does leads to the page of the
/// best candidate.
pub proof fn index_leads_to_the_best_candidate<F: Fn(&str, &str) -> u32>(
    base: Seq<char>,
    name: Seq<char>,
    url: String,
    html: Seq<char>,
    score: F,
    step: LookupStep,
)
    requires
        is_next(base, name, LookupState::Browse { url }, Some(html), score, step),
    ensures
        match step {
            LookupStep::Done(d) => d is None,
            LookupStep::Fetch(n) => n is Best && exists|slug: Seq<char>| #[trigger]
                is_best_match(html, name, score, Some(slug)) && n.address() == base + "/amiga/"@
                    + slug,
        },
        selected(html, "a[href^=\"/amiga/\"]"@) is None ==> step is Done,
{
    let slug = choose|slug: Option<Seq<char>>| #[trigger]
        is_best_match(html, name, score, slug) && match slug {
            Some(s) => step matches LookupStep::Fetch(n) && n is Best && n.address()
                == game_url_of(base, s),
            None => step matches LookupStep::Done(d) && d is None,
        };
    if let Some(s) = slug {
        assert(is_best_match(html, name, score, Some(s)));
    }
}

} // verus!
