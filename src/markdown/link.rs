use vstd::prelude::*;
use super::lines::{lemma_next_newline_bounds, next_newline};
use super::text::{byte_len, chars_of, lemma_skip_ws_bounds, skip_whitespace, skip_ws, slice_chars, utf8_len};

verus! {

#[verifier::external_type_specification]
#[verifier::external_body]
pub struct ExUrl(url::Url);

pub uninterp spec fn parses_as_url(s: Seq<char>) -> bool;

/// Relies on `url::Url::parse`: `Some` exactly when the text parses as an
/// absolute URL, which depends on the text alone.
#[verifier::external_body]
fn parse_url(s: &str) -> (r: Option<url::Url>)
    ensures
        r is Some <==> parses_as_url(s@),
{
    url::Url::parse(s).ok()
}

/// What a link shows: an image with its alternative text, or a hyperlink
/// with its text.
#[derive(Debug, PartialEq)]
pub enum ContentType<'a> {
    Image(&'a str),
    HyperLink(&'a str),
    Text,
}

/// Where a link points.
#[derive(Debug, PartialEq)]
pub enum LinkType {
    File(String),
    Url(url::Url),
}

/// A link found in a text, from byte `start` to byte `end` of its UTF-8
/// text.
#[derive(Debug, PartialEq)]
pub struct FoundLink<'a> {
    pub start: usize,
    pub end: usize,
    pub link: LinkType,
    pub content: ContentType<'a>,
}

/// A link's place in a text: its span, whether it is an image, and the spans
/// of its text and of its target.
pub struct LinkSpan {
    pub start: int,
    pub end: int,
    pub image: bool,
    pub text_start: int,
    pub text_end: int,
    pub url_start: int,
    pub url_end: int,
}

/// Whether the target may end at `u`: whitespace, then `)`.
pub open spec fn closes_at(c: Seq<char>, u: int) -> bool {
    let w = skip_ws(c, u);
    0 <= w < c.len() && c[w] == ')'
}

/// The last `u` in `t..=j` where the target may end.
pub open spec fn last_close(c: Seq<char>, t: int, j: int) -> Option<int>
    decreases j - t + 1,
{
    if j < t {
        None
    } else if closes_at(c, j) {
        Some(j)
    } else {
        last_close(c, t, j - 1)
    }
}

/// The end of a target that starts at `t`: as far along its line as a `)`
/// can still follow.
pub open spec fn target_end(c: Seq<char>, t: int) -> Option<int> {
    last_close(c, t, next_newline(c, t))
}

/// Whether the text may end at `q`: whitespace, `](`, whitespace, a target.
pub open spec fn text_ends_at(c: Seq<char>, q: int) -> bool {
    let r = skip_ws(c, q);
    0 <= r && r + 1 < c.len() && c[r] == ']' && c[r + 1] == '(' && target_end(
        c,
        skip_ws(c, r + 2),
    ) is Some
}

/// The last `q` in `s..=j` where the text may end.
pub open spec fn last_text_end(c: Seq<char>, s: int, j: int) -> Option<int>
    decreases j - s + 1,
{
    if j < s {
        None
    } else if text_ends_at(c, j) {
        Some(j)
    } else {
        last_text_end(c, s, j - 1)
    }
}

/// A link whose `[` ends right before `b`: whitespace, the text (as far along
/// its line as the rest still fits), whitespace, `](`, whitespace, the
/// target (likewise), whitespace, `)`.
pub open spec fn link_body(c: Seq<char>, start: int, b: int, image: bool) -> Option<LinkSpan> {
    let s = skip_ws(c, b);
    match last_text_end(c, s, next_newline(c, s)) {
        None => None,
        Some(q) => {
            let t = skip_ws(c, skip_ws(c, q) + 2);
            let u = target_end(c, t).unwrap();
            Some(
                LinkSpan {
                    start,
                    end: skip_ws(c, u) + 1,
                    image,
                    text_start: s,
                    text_end: q,
                    url_start: t,
                    url_end: u,
                },
            )
        },
    }
}

/// The link that starts at `p`: `![` for an image, else `[`.
pub open spec fn link_at(c: Seq<char>, p: int) -> Option<LinkSpan> {
    if 0 <= p && p + 1 < c.len() && c[p] == '!' && c[p + 1] == '[' && link_body(c, p, p + 2, true) is Some {
        link_body(c, p, p + 2, true)
    } else if 0 <= p < c.len() && c[p] == '[' {
        link_body(c, p, p + 1, false)
    } else {
        None
    }
}

/// The links of `c` from `p` on, each search going on after the last link.
pub open spec fn links_from(c: Seq<char>, p: int) -> Seq<LinkSpan>
    decreases c.len() - p,
{
    if p < 0 || p >= c.len() {
        Seq::empty()
    } else {
        match link_at(c, p) {
            Some(l) => if p < l.end <= c.len() {
                seq![l] + links_from(c, l.end)
            } else {
                Seq::empty()
            },
            None => links_from(c, p + 1),
        }
    }
}

/// Whether every link target in `c` parses as a URL.
pub open spec fn targets_parse(c: Seq<char>) -> bool {
    forall|k: int|
        0 <= k < links_from(c, 0).len() ==> parses_as_url(
            #[trigger] c.subrange(links_from(c, 0)[k].url_start, links_from(c, 0)[k].url_end),
        )
}

/// `f` is the found link for the span `l` of `c`, its offsets counted in
/// bytes.
pub open spec fn found_matches(f: FoundLink, l: LinkSpan, c: Seq<char>) -> bool {
    &&& f.start == utf8_len(c.take(l.start))
    &&& f.end == utf8_len(c.take(l.end))
    &&& f.link is Url
    &&& match f.content {
        ContentType::Image(t) => l.image && t@ == c.subrange(l.text_start, l.text_end),
        ContentType::HyperLink(t) => !l.image && t@ == c.subrange(l.text_start, l.text_end),
        ContentType::Text => false,
    }
}

/// A link's place, as found.
struct Place {
    start: usize,
    end: usize,
    image: bool,
    text_start: usize,
    text_end: usize,
    url_start: usize,
    url_end: usize,
}

spec fn place_view(p: Place) -> LinkSpan {
    LinkSpan {
        start: p.start as int,
        end: p.end as int,
        image: p.image,
        text_start: p.text_start as int,
        text_end: p.text_end as int,
        url_start: p.url_start as int,
        url_end: p.url_end as int,
    }
}

fn newline_from(c: &Vec<char>, i: usize) -> (r: usize)
    requires
        i <= c.len(),
    ensures
        r == next_newline(c@, i as int),
        i <= r <= c.len(),
{
    proof {
        lemma_next_newline_bounds(c@, i as int);
    }
    let mut k: usize = i;
    while k < c.len() && c[k] != '\n'
        invariant
            i <= k <= c.len(),
            next_newline(c@, k as int) == next_newline(c@, i as int),
        decreases c.len() - k,
    {
        k += 1;
    }
    k
}

fn closes_here(c: &Vec<char>, u: usize) -> (r: bool)
    requires
        u <= c.len(),
    ensures
        r == closes_at(c@, u as int),
{
    let w = skip_whitespace(c, u);
    w < c.len() && c[w] == ')'
}

fn find_target_end(c: &Vec<char>, t: usize) -> (r: Option<usize>)
    requires
        t <= c.len(),
    ensures
        match r {
            Some(u) => target_end(c@, t as int) == Some(u as int) && t <= u <= c.len(),
            None => target_end(c@, t as int) is None,
        },
{
    let j = newline_from(c, t);
    let mut k: usize = j;
    while k > t && !closes_here(c, k)
        invariant
            t <= k <= j <= c.len(),
            last_close(c@, t as int, k as int) == last_close(c@, t as int, j as int),
        decreases k,
    {
        k -= 1;
    }
    if closes_here(c, k) {
        Some(k)
    } else {
        assert(last_close(c@, t as int, k - 1) is None);
        None
    }
}

fn text_ends_here(c: &Vec<char>, q: usize) -> (r: bool)
    requires
        q <= c.len(),
    ensures
        r == text_ends_at(c@, q as int),
{
    let r = skip_whitespace(c, q);
    if r < c.len() && r + 1 < c.len() && c[r] == ']' && c[r + 1] == '(' {
        let t = skip_whitespace(c, r + 2);
        find_target_end(c, t).is_some()
    } else {
        false
    }
}

fn body_here(c: &Vec<char>, start: usize, b: usize, image: bool) -> (r: Option<Place>)
    requires
        b <= c.len(),
    ensures
        match r {
            Some(p) => link_body(c@, start as int, b as int, image) == Some(place_view(p)),
            None => link_body(c@, start as int, b as int, image) is None,
        },
{
    let s = skip_whitespace(c, b);
    let j = newline_from(c, s);
    let mut q: usize = j;
    while q > s && !text_ends_here(c, q)
        invariant
            s <= q <= j <= c.len(),
            last_text_end(c@, s as int, q as int) == last_text_end(c@, s as int, j as int),
        decreases q,
    {
        q -= 1;
    }
    if !text_ends_here(c, q) {
        assert(last_text_end(c@, s as int, q - 1) is None);
        return None;
    }
    let r = skip_whitespace(c, q);
    let t = skip_whitespace(c, r + 2);
    match find_target_end(c, t) {
        None => None,
        Some(u) => {
            proof {
                lemma_next_newline_bounds(c@, t as int);
                lemma_last_close_bounds(c@, t as int, next_newline(c@, t as int));
            }
            let w = skip_whitespace(c, u);
            if w >= c.len() {
                return None;
            }
            Some(
                Place {
                    start,
                    end: w + 1,
                    image,
                    text_start: s,
                    text_end: q,
                    url_start: t,
                    url_end: u,
                },
            )
        },
    }
}

fn link_here(c: &Vec<char>, p: usize) -> (r: Option<Place>)
    requires
        p < c.len(),
    ensures
        match r {
            Some(x) => link_at(c@, p as int) == Some(place_view(x)),
            None => link_at(c@, p as int) is None,
        },
{
    if p + 1 < c.len() && c[p] == '!' && c[p + 1] == '[' {
        let b = body_here(c, p, p + 2, true);
        if b.is_some() {
            return b;
        }
    }
    if c[p] == '[' {
        body_here(c, p, p + 1, false)
    } else {
        None
    }
}

fn find_places(c: &Vec<char>) -> (r: Vec<Place>)
    ensures
        r@.map_values(|x: Place| place_view(x)) == links_from(c@, 0),
        forall|k: int| 0 <= k < r@.len() ==> {
            let x = #[trigger] r@[k];
            x.text_start <= x.text_end <= c.len() && x.url_start <= x.url_end <= c.len()
                && x.start <= x.end <= c.len()
        },
{
    let mut r: Vec<Place> = Vec::new();
    let mut p: usize = 0;
    while p < c.len()
        invariant
            p <= c.len(),
            r@.map_values(|x: Place| place_view(x)) + links_from(c@, p as int) == links_from(c@, 0),
            forall|k: int| 0 <= k < r@.len() ==> {
                let x = #[trigger] r@[k];
                x.text_start <= x.text_end <= c.len() && x.url_start <= x.url_end <= c.len()
                    && x.start <= x.end <= c.len()
            },
        decreases c.len() - p,
    {
        let ghost before = r@.map_values(|x: Place| place_view(x));
        match link_here(c, p) {
            Some(x) => {
                if p < x.end && x.end <= c.len() {
                    proof {
                        lemma_place_bounds(c@, p as int);
                    }
                    let next = x.end;
                    r.push(x);
                    assert(r@.map_values(|x: Place| place_view(x)) =~= before.push(place_view(x)));
                    assert(r@.map_values(|x: Place| place_view(x)) + links_from(c@, next as int) =~= before
                        + links_from(c@, p as int));
                    p = next;
                } else {
                    assert(links_from(c@, p as int) =~= Seq::<LinkSpan>::empty());
                    assert(r@.map_values(|x: Place| place_view(x)) =~= links_from(c@, 0));
                    return r;
                }
            },
            None => {
                p += 1;
            },
        }
    }
    assert(r@.map_values(|x: Place| place_view(x)) + Seq::<LinkSpan>::empty() =~= r@.map_values(
        |x: Place| place_view(x),
    ));
    r
}

proof fn lemma_last_close_bounds(c: Seq<char>, t: int, j: int)
    ensures
        last_close(c, t, j) matches Some(u) ==> t <= u <= j && closes_at(c, u),
    decreases j - t + 1,
{
    if j >= t && !closes_at(c, j) {
        lemma_last_close_bounds(c, t, j - 1);
    }
}

proof fn lemma_last_text_end_bounds(c: Seq<char>, s: int, j: int)
    ensures
        last_text_end(c, s, j) matches Some(q) ==> s <= q <= j && text_ends_at(c, q),
    decreases j - s + 1,
{
    if j >= s && !text_ends_at(c, j) {
        lemma_last_text_end_bounds(c, s, j - 1);
    }
}

proof fn lemma_body_bounds(c: Seq<char>, start: int, b: int, image: bool)
    requires
        0 <= b <= c.len(),
    ensures
        link_body(c, start, b, image) matches Some(l) ==> l.text_start <= l.text_end <= c.len()
            && l.url_start <= l.url_end <= c.len(),
{
    let s = skip_ws(c, b);
    lemma_skip_ws_bounds(c, b);
    lemma_next_newline_bounds(c, s);
    lemma_last_text_end_bounds(c, s, next_newline(c, s));
    if let Some(q) = last_text_end(c, s, next_newline(c, s)) {
        let r = skip_ws(c, q);
        lemma_skip_ws_bounds(c, q);
        let t = skip_ws(c, r + 2);
        if r + 2 <= c.len() {
            lemma_skip_ws_bounds(c, r + 2);
            lemma_next_newline_bounds(c, t);
            lemma_last_close_bounds(c, t, next_newline(c, t));
        }
    }
}

proof fn lemma_place_bounds(c: Seq<char>, p: int)
    requires
        0 <= p < c.len(),
    ensures
        link_at(c, p) matches Some(l) ==> l.text_start <= l.text_end <= c.len() && l.url_start
            <= l.url_end <= c.len(),
{
    if p + 1 < c.len() {
        lemma_body_bounds(c, p, p + 2, true);
    }
    lemma_body_bounds(c, p, p + 1, false);
}

/// The links of a text: `[text](target)` for a hyperlink, `![text](target)`
/// for an image, each target parsed as a URL.
pub fn find_links<'a>(content: &'a str) -> (r: Vec<FoundLink<'a>>)
    requires
        targets_parse(content@),
    ensures
        r@.len() == links_from(content@, 0).len(),
        forall|k: int|
            0 <= k < r@.len() ==> found_matches(#[trigger] r@[k], links_from(content@, 0)[k], content@),
{
    let c = chars_of(content);
    let places = find_places(&c);
    let ghost spans = links_from(content@, 0);
    let mut r: Vec<FoundLink<'a>> = Vec::new();
    let mut k: usize = 0;
    while k < places.len()
        invariant
            c@ == content@,
            spans == links_from(content@, 0),
            places@.map_values(|x: Place| place_view(x)) == spans,
            targets_parse(content@),
            forall|j: int| 0 <= j < places@.len() ==> {
                let x = #[trigger] places@[j];
                x.text_start <= x.text_end <= c.len() && x.url_start <= x.url_end <= c.len()
                    && x.start <= x.end <= c.len()
            },
            k <= places.len(),
            r@.len() == k,
            forall|j: int| 0 <= j < k ==> found_matches(#[trigger] r@[j], spans[j], content@),
        decreases places.len() - k,
    {
        let x = &places[k];
        assert(place_view(*x) == spans[k as int]);
        let target = content.substring_char(x.url_start, x.url_end);
        let url = match parse_url(target) {
            Some(u) => u,
            None => {
                assert(parses_as_url(content@.subrange(spans[k as int].url_start, spans[k as int].url_end)));
                return r;
            },
        };
        let text = content.substring_char(x.text_start, x.text_end);
        let before_start = slice_chars(&c, 0, x.start);
        let before_end = slice_chars(&c, 0, x.end);
        assert(before_start@ =~= content@.take(x.start as int));
        assert(before_end@ =~= content@.take(x.end as int));
        let found = FoundLink {
            start: byte_len(&before_start),
            end: byte_len(&before_end),
            link: LinkType::Url(url),
            content: if x.image {
                ContentType::Image(text)
            } else {
                ContentType::HyperLink(text)
            },
        };
        r.push(found);
        k += 1;
    }
    assert(places@.map_values(|x: Place| place_view(x)).len() == places@.len());
    r
}

/// The links of a text, or `None` when a target does not parse as a URL.
pub fn try_find_links<'a>(content: &'a str) -> (r: Option<Vec<FoundLink<'a>>>)
    ensures
        match r {
            Some(v) => targets_parse(content@) && v@.len() == links_from(content@, 0).len() && forall|
                k: int,
            |
                0 <= k < v@.len() ==> found_matches(
                    #[trigger] v@[k],
                    links_from(content@, 0)[k],
                    content@,
                ),
            None => !targets_parse(content@),
        },
{
    let c = chars_of(content);
    let places = find_places(&c);
    let ghost spans = links_from(content@, 0);
    let mut k: usize = 0;
    while k < places.len()
        invariant
            c@ == content@,
            spans == links_from(content@, 0),
            places@.map_values(|x: Place| place_view(x)) == spans,
            forall|j: int| 0 <= j < places@.len() ==> {
                let x = #[trigger] places@[j];
                x.text_start <= x.text_end <= c.len() && x.url_start <= x.url_end <= c.len()
            },
            k <= places.len(),
            forall|j: int|
                0 <= j < k ==> parses_as_url(
                    #[trigger] content@.subrange(spans[j].url_start, spans[j].url_end),
                ),
        decreases places.len() - k,
    {
        let x = &places[k];
        assert(place_view(*x) == spans[k as int]);
        let target = content.substring_char(x.url_start, x.url_end);
        if parse_url(target).is_none() {
            assert(!parses_as_url(content@.subrange(spans[k as int].url_start, spans[k as int].url_end)));
            return None;
        }
        k += 1;
    }
    Some(find_links(content))
}

} // verus!
