//! The resource extractor: candidate URLs from markup and CSS, admitted,
//! resolved, canonicalized and deduplicated.

use vstd::prelude::*;
use crate::blacklist::Blacklist;
use crate::css::{css_urls, extract_css_urls};
use crate::engine::str_views;
use crate::text::{chars_of, string_of, white_space, is_white_space, sub_chars, is_blank};
use crate::url_parser::{event_handler, invalid_url_pattern, resolved, StandardUrlParser, UrlParser};
use crate::urls::{split_on, split_on_exec, views};
use crate::validation::{valid_resource_url, ResourceValidator};

verus! {

/// What the `scraper` crate gives for a document: the values of `attr` on
/// the elements that `selector` matches, in the order `Html::select` yields
/// them (none where the selector does not parse).
pub uninterp spec fn selected_attribute_values(
    html: Seq<char>,
    selector: Seq<char>,
    attr: Seq<char>,
) -> Seq<Seq<char>>;

/// What the `scraper` crate gives for a document: the text content of each
/// element that `selector` matches, in the order `Html::select` yields them.
pub uninterp spec fn selected_texts(html: Seq<char>, selector: Seq<char>) -> Seq<Seq<char>>;

/// Relies on `scraper::Html::parse_document`, `Selector::parse`,
/// `Html::select` and `Element::attr`.
#[verifier::external_body]
fn select_attribute_values(html: &str, selector: &str, attr: &str) -> (r: Vec<String>)
    ensures
        str_views(r@) == selected_attribute_values(html@, selector@, attr@),
{
    let doc = scraper::Html::parse_document(html);
    match scraper::Selector::parse(selector) {
        Ok(sel) => doc.select(&sel).filter_map(|e| e.value().attr(attr)).map(|v| v.to_string()).collect(),
        Err(_) => Vec::new(),
    }
}

/// Relies on `scraper::Html::parse_document`, `Selector::parse`,
/// `Html::select` and `ElementRef::text`.
#[verifier::external_body]
fn select_texts(html: &str, selector: &str) -> (r: Vec<String>)
    ensures
        str_views(r@) == selected_texts(html@, selector@),
{
    let doc = scraper::Html::parse_document(html);
    match scraper::Selector::parse(selector) {
        Ok(sel) => doc.select(&sel).map(|e| e.text().collect::<String>()).collect(),
        Err(_) => Vec::new(),
    }
}

/// A discovered resource.
pub struct SimpleResource {
    pub url: String,
    pub depth: usize,
}

impl SimpleResource {
    pub fn new(url: String, depth: usize) -> (r: Self)
        ensures
            r.url == url,
            r.depth == depth,
    {
        SimpleResource { url, depth }
    }
}

/// The resolution base and the depth of what a page yields.
pub struct ExtractionContext<'a> {
    pub base_url: &'a str,
    pub depth: usize,
}

impl<'a> ExtractionContext<'a> {
    pub fn new(base_url: &'a str, depth: usize, _base_domain: &'a str, _base_path: &'a str) -> (r: Self)
        ensures
            r.base_url == base_url,
            r.depth == depth,
    {
        ExtractionContext { base_url, depth }
    }
}

/// The canonical URL a candidate is admitted as: the candidate is not
/// blacklisted, not script or inline data, no template placeholder; it
/// resolves against the base; and the result passes the resource rules.
pub open spec fn admitted_as(bl: &Blacklist, base: Seq<char>, v: Seq<char>) -> Option<Seq<char>> {
    if !bl.matches(v) && !event_handler(v) && !invalid_url_pattern(v) {
        match resolved(base, v) {
            Some(r) => if valid_resource_url(r) {
                Some(r)
            } else {
                None
            },
            None => None,
        }
    } else {
        None
    }
}

/// The admitted URLs of the candidates, in order, each kept only the first
/// time it appears.
pub open spec fn admit_all(bl: &Blacklist, base: Seq<char>, cands: Seq<Seq<char>>) -> Seq<Seq<char>>
    decreases cands.len(),
{
    if cands.len() == 0 {
        Seq::<Seq<char>>::empty()
    } else {
        let prev = admit_all(bl, base, cands.drop_last());
        match admitted_as(bl, base, cands.last()) {
            Some(r) => if prev.contains(r) {
                prev
            } else {
                prev.push(r)
            },
            None => prev,
        }
    }
}


/// A page's links hold no URL twice.
pub proof fn lemma_links_unique(bl: &Blacklist, base: Seq<char>, cands: Seq<Seq<char>>)
    ensures
        admit_all(bl, base, cands).no_duplicates(),
    decreases cands.len(),
{
    if cands.len() > 0 {
        lemma_links_unique(bl, base, cands.drop_last());
        let prev = admit_all(bl, base, cands.drop_last());
        let r = admit_all(bl, base, cands);
        if let Some(x) = admitted_as(bl, base, cands.last()) {
            if !prev.contains(x) {
                assert forall|i: int, j: int| 0 <= i < r.len() && 0 <= j < r.len() && i != j implies r[i] != r[j] by {
                    if i == prev.len() {
                        assert(prev[j] == r[j]);
                    } else if j == prev.len() {
                        assert(prev[i] == r[i]);
                    } else {
                        assert(prev[i] == r[i] && prev[j] == r[j]);
                    }
                }
            }
        }
    }
}

/// Collects admitted resources, each URL once.
pub struct SimpleResourceProcessor<'a> {
    url_parser: StandardUrlParser,
    resources: Vec<SimpleResource>,
    blacklist: &'a Blacklist,
}

pub open spec fn resource_urls(v: Seq<SimpleResource>) -> Seq<Seq<char>> {
    v.map_values(|r: SimpleResource| r.url@)
}

impl<'a> SimpleResourceProcessor<'a> {
    pub closed spec fn urls(&self) -> Seq<Seq<char>> {
        resource_urls(self.resources@)
    }

    pub closed spec fn bl(&self) -> &'a Blacklist {
        self.blacklist
    }

    /// Every resource carries the given depth.
    pub closed spec fn all_at_depth(&self, d: usize) -> bool {
        forall|i: int| 0 <= i < self.resources@.len() ==> #[trigger] self.resources@[i].depth == d
    }

    pub fn new(_url_parser: &StandardUrlParser, blacklist: &'a Blacklist) -> (r: Self)
        ensures
            r.urls().len() == 0,
            r.bl() == blacklist,
    {
        SimpleResourceProcessor { url_parser: StandardUrlParser, resources: Vec::new(), blacklist }
    }

    fn is_valid_url(&self, url: &str) -> (r: bool)
        ensures
            r == (!self.bl().matches(url@) && !event_handler(url@) && !invalid_url_pattern(url@)),
    {
        !self.blacklist.is_blacklisted(url) && !self.url_parser.is_event_handler(url)
            && !self.url_parser.is_invalid_url_pattern(url)
    }

    fn seen(&self, url: &String) -> (r: bool)
        ensures
            r == self.urls().contains(url@),
    {
        let mut i: usize = 0;
        while i < self.resources.len()
            invariant
                forall|k: int| 0 <= k < i ==> #[trigger] self.urls()[k] != url@,
            decreases self.resources.len() - i,
        {
            if self.resources[i].url == *url {
                assert(self.urls()[i as int] == url@);
                return true;
            }
            i = i + 1;
        }
        false
    }

    /// Adds the candidate if it is admitted and its URL is new.
    pub fn try_add_resource(&mut self, url: &str, ctx: &ExtractionContext)
        ensures
            final(self).bl() == old(self).bl(),
            final(self).urls() == match admitted_as(old(self).bl(), ctx.base_url@, url@) {
                Some(r) => if old(self).urls().contains(r) {
                    old(self).urls()
                } else {
                    old(self).urls().push(r)
                },
                None => old(self).urls(),
            },
            old(self).all_at_depth(ctx.depth) ==> final(self).all_at_depth(ctx.depth),
    {
        if !self.is_valid_url(url) {
            return;
        }
        if let Some(resolved_url) = self.url_parser.resolve_url(ctx.base_url, url) {
            if !ResourceValidator::is_valid_resource_url(resolved_url.as_str()) {
                return;
            }
            if !self.seen(&resolved_url) {
                let ghost before = self.urls();
                let ghost url_view = resolved_url@;
                self.resources.push(SimpleResource::new(resolved_url, ctx.depth));
                assert(self.urls() =~= before.push(url_view));
            }
        }
    }

    pub fn into_resources(self) -> (r: Vec<SimpleResource>)
        ensures
            resource_urls(r@) == self.urls(),
            forall|d: usize| self.all_at_depth(d) ==> forall|i: int| 0 <= i < r@.len() ==> #[trigger] r@[i].depth == d,
    {
        self.resources
    }
}

/// The first token of `s` that white space delimits (empty if none).
pub open spec fn first_token(s: Seq<char>) -> Seq<char> {
    let a = crate::css::skip_ws(s, 0);
    s.subrange(a, token_end(s, a))
}

/// The end of the run of non-white-space characters from `i`.
pub open spec fn token_end(s: Seq<char>, i: int) -> int
    decreases s.len() - i,
{
    if i < 0 || i >= s.len() || white_space(s[i]) {
        i
    } else {
        token_end(s, i + 1)
    }
}

/// The URLs of a `srcset` value: of each comma-separated part, the first
/// token, where there is one.
pub open spec fn srcset_urls(v: Seq<char>) -> Seq<Seq<char>> {
    non_empty(split_on(v, ',').map_values(|p: Seq<char>| first_token(p)))
}

pub open spec fn non_empty(ps: Seq<Seq<char>>) -> Seq<Seq<char>>
    decreases ps.len(),
{
    if ps.len() == 0 {
        ps
    } else if ps.last().len() == 0 {
        non_empty(ps.drop_last())
    } else {
        non_empty(ps.drop_last()).push(ps.last())
    }
}

/// Flattening of a list of lists.
pub open spec fn flatten(xs: Seq<Seq<Seq<char>>>) -> Seq<Seq<char>>
    decreases xs.len(),
{
    if xs.len() == 0 {
        Seq::<Seq<char>>::empty()
    } else {
        flatten(xs.drop_last()) + xs.last()
    }
}

pub open spec fn sel(html: Seq<char>, selector: &str, attr: &str) -> Seq<Seq<char>> {
    selected_attribute_values(html, selector@, attr@)
}

/// The link candidates of a page, in the order they are tried: the
/// attribute values of each selector in turn, then the `srcset` URLs of
/// `img` and `source`, then the `url(...)` references of each `<style>`
/// element, then those of each `style` attribute.
pub open spec fn page_candidates(html: Seq<char>) -> Seq<Seq<char>> {
    sel(html, "a[href]", "href") + sel(html, "img[src]", "src") + sel(html, "link[href]", "href")
        + sel(html, "script[src]", "src") + sel(html, "iframe[src]", "src") + sel(
        html,
        "frame[src]",
        "src",
    ) + sel(html, "embed[src]", "src") + sel(html, "object[data]", "data") + sel(
        html,
        "audio[src]",
        "src",
    ) + sel(html, "video[src]", "src") + sel(html, "source[src]", "src") + flatten(
        sel(html, "img[srcset]", "srcset").map_values(|v: Seq<char>| srcset_urls(v)),
    ) + flatten(sel(html, "source[srcset]", "srcset").map_values(|v: Seq<char>| srcset_urls(v)))
        + flatten(selected_texts(html, "style"@).map_values(|t: Seq<char>| css_urls(t))) + flatten(
        sel(html, "[style]", "style").map_values(|t: Seq<char>| css_urls(t)),
    )
}

/// The resolution base of a page: the first `<base href>` value where there
/// is one, else the page's URL.
pub open spec fn page_base(html: Seq<char>, page_url: Seq<char>) -> Seq<char> {
    let b = selected_attribute_values(html, "base[href]"@, "href"@);
    if b.len() > 0 {
        b[0]
    } else {
        page_url
    }
}


fn token_end_exec(s: &[char], i: usize) -> (r: usize)
    requires
        i <= s.len(),
    ensures
        r == token_end(s@, i as int),
        i <= r <= s.len(),
    decreases s.len() - i,
{
    if i >= s.len() || is_white_space(s[i]) {
        i
    } else {
        token_end_exec(s, i + 1)
    }
}

fn first_token_exec(s: &[char]) -> (r: Vec<char>)
    ensures
        r@ == first_token(s@),
{
    let a = crate::css::skip_ws_exec(s, 0);
    let e = token_end_exec(s, a);
    sub_chars(s, a, e)
}

/// Appends the `srcset` URLs of `v` to `out`.
fn push_srcset_urls(out: &mut Vec<String>, v: &str)
    ensures
        str_views(final(out)@) == str_views(old(out)@) + srcset_urls(v@),
{
    let parts = split_on_exec(chars_of(v).as_slice(), ',');
    let ghost toks = views(parts@).map_values(|p: Seq<char>| first_token(p));
    let ghost start = str_views(out@);
    let mut i: usize = 0;
    while i < parts.len()
        invariant
            i <= parts.len(),
            toks == views(parts@).map_values(|p: Seq<char>| first_token(p)),
            str_views(out@) == start + non_empty(toks.take(i as int)),
        decreases parts.len() - i,
    {
        let t = first_token_exec(parts[i].as_slice());
        proof {
            assert(toks.take(i + 1).drop_last() =~= toks.take(i as int));
            assert(toks[i as int] == first_token(parts@[i as int]@));
        }
        if t.len() > 0 {
            let ghost before = str_views(out@);
            out.push(string_of(t.as_slice()));
            assert(str_views(out@) =~= before.push(t@));
            assert(str_views(out@) =~= start + non_empty(toks.take(i + 1)));
        }
        i = i + 1;
    }
    assert(toks.take(parts.len() as int) =~= toks);
}

/// Appends the `url(...)` references of `t` to `out`.
fn push_css_urls(out: &mut Vec<String>, t: &str)
    ensures
        str_views(final(out)@) == str_views(old(out)@) + css_urls(t@),
{
    let urls = extract_css_urls(t);
    let ghost start = str_views(out@);
    let mut i: usize = 0;
    while i < urls.len()
        invariant
            i <= urls.len(),
            str_views(out@) == start + views(urls@).take(i as int),
        decreases urls.len() - i,
    {
        let ghost before = str_views(out@);
        let x = string_of(urls[i].as_slice());
        assert(x@ == views(urls@)[i as int]);
        out.push(x);
        assert(str_views(out@) =~= before.push(x@));
        assert(str_views(out@) =~= start + views(urls@).take(i + 1));
        i = i + 1;
    }
    assert(views(urls@).take(urls.len() as int) =~= views(urls@));
}

/// Appends the values to `out`.
fn push_values(out: &mut Vec<String>, vals: Vec<String>)
    ensures
        str_views(final(out)@) == str_views(old(out)@) + str_views(vals@),
{
    let ghost start = str_views(out@);
    let mut i: usize = 0;
    while i < vals.len()
        invariant
            i <= vals.len(),
            str_views(out@) == start + str_views(vals@).take(i as int),
        decreases vals.len() - i,
    {
        let ghost before = str_views(out@);
        let x = vals[i].clone();
        assert(x@ == str_views(vals@)[i as int]);
        out.push(x);
        assert(str_views(out@) =~= before.push(x@));
        assert(str_views(out@) =~= start + str_views(vals@).take(i + 1));
        i = i + 1;
    }
    assert(str_views(vals@).take(vals.len() as int) =~= str_views(vals@));
}

/// Appends the attribute values of `selector` to `out`.
fn push_selected(out: &mut Vec<String>, html: &str, selector: &str, attr: &str)
    ensures
        str_views(final(out)@) == str_views(old(out)@) + sel(html@, selector, attr),
{
    let vals = select_attribute_values(html, selector, attr);
    push_values(out, vals);
}

/// Appends the `srcset` URLs of each value to `out`.
fn push_all_srcset(out: &mut Vec<String>, vals: Vec<String>)
    ensures
        str_views(final(out)@) == str_views(old(out)@) + flatten(
            str_views(vals@).map_values(|v: Seq<char>| srcset_urls(v)),
        ),
{
    let ghost f = str_views(vals@).map_values(|v: Seq<char>| srcset_urls(v));
    let ghost start = str_views(out@);
    let mut i: usize = 0;
    while i < vals.len()
        invariant
            i <= vals.len(),
            f == str_views(vals@).map_values(|v: Seq<char>| srcset_urls(v)),
            str_views(out@) == start + flatten(f.take(i as int)),
        decreases vals.len() - i,
    {
        proof {
            assert(f.take(i + 1).drop_last() =~= f.take(i as int));
        }
        push_srcset_urls(out, vals[i].as_str());
        assert(str_views(out@) =~= start + flatten(f.take(i + 1)));
        i = i + 1;
    }
    assert(f.take(vals.len() as int) =~= f);
}

/// Appends the `url(...)` references of each text to `out`.
fn push_all_css(out: &mut Vec<String>, texts: Vec<String>)
    ensures
        str_views(final(out)@) == str_views(old(out)@) + flatten(
            str_views(texts@).map_values(|t: Seq<char>| css_urls(t)),
        ),
{
    let ghost f = str_views(texts@).map_values(|t: Seq<char>| css_urls(t));
    let ghost start = str_views(out@);
    let mut i: usize = 0;
    while i < texts.len()
        invariant
            i <= texts.len(),
            f == str_views(texts@).map_values(|t: Seq<char>| css_urls(t)),
            str_views(out@) == start + flatten(f.take(i as int)),
        decreases texts.len() - i,
    {
        proof {
            assert(f.take(i + 1).drop_last() =~= f.take(i as int));
        }
        push_css_urls(out, texts[i].as_str());
        assert(str_views(out@) =~= start + flatten(f.take(i + 1)));
        i = i + 1;
    }
    assert(f.take(texts.len() as int) =~= f);
}

/// The link candidates of the page, in the order they are tried.
pub fn collect_candidates(html: &str) -> (r: Vec<String>)
    ensures
        str_views(r@) == page_candidates(html@),
{
    let mut out: Vec<String> = Vec::new();
    push_selected(&mut out, html, "a[href]", "href");
    push_selected(&mut out, html, "img[src]", "src");
    push_selected(&mut out, html, "link[href]", "href");
    push_selected(&mut out, html, "script[src]", "src");
    push_selected(&mut out, html, "iframe[src]", "src");
    push_selected(&mut out, html, "frame[src]", "src");
    push_selected(&mut out, html, "embed[src]", "src");
    push_selected(&mut out, html, "object[data]", "data");
    push_selected(&mut out, html, "audio[src]", "src");
    push_selected(&mut out, html, "video[src]", "src");
    push_selected(&mut out, html, "source[src]", "src");
    push_all_srcset(&mut out, select_attribute_values(html, "img[srcset]", "srcset"));
    push_all_srcset(&mut out, select_attribute_values(html, "source[srcset]", "srcset"));
    push_all_css(&mut out, select_texts(html, "style"));
    push_all_css(&mut out, select_attribute_values(html, "[style]", "style"));
    assert(str_views(out@) =~= page_candidates(html@));
    out
}

/// The resource extractor.
pub struct SimpleResourceExtractor {
    url_parser: StandardUrlParser,
}

impl SimpleResourceExtractor {
    pub fn new() -> (r: Self) {
        SimpleResourceExtractor { url_parser: StandardUrlParser }
    }

    /// The resources of a page at `next_depth`: every admitted candidate,
    /// resolved against the page's base, canonical, each URL once, in the
    /// order the candidates are tried.
    pub fn extract_resources(
        &self,
        html: &str,
        base: &str,
        next_depth: usize,
        base_domain: &str,
        base_path: &str,
        blacklist: &Blacklist,
    ) -> (r: Vec<SimpleResource>)
        ensures
            resource_urls(r@) == admit_all(blacklist, page_base(html@, base@), page_candidates(html@)),
            forall|i: int| 0 <= i < r@.len() ==> #[trigger] r@[i].depth == next_depth,
    {
        let bases = select_attribute_values(html, "base[href]", "href");
        let base_url: String = if bases.len() > 0 {
            bases[0].clone()
        } else {
            base.to_string()
        };
        assert(base_url@ == page_base(html@, base@));
        let cands = collect_candidates(html);
        let ctx = ExtractionContext::new(base_url.as_str(), next_depth, base_domain, base_path);
        let mut processor = SimpleResourceProcessor::new(&self.url_parser, blacklist);
        let ghost cs = str_views(cands@);
        let mut i: usize = 0;
        while i < cands.len()
            invariant
                i <= cands.len(),
                cs == str_views(cands@),
                ctx.base_url@ == page_base(html@, base@),
                ctx.depth == next_depth,
                processor.bl() == blacklist,
                processor.urls() == admit_all(blacklist, ctx.base_url@, cs.take(i as int)),
                processor.all_at_depth(next_depth),
            decreases cands.len() - i,
        {
            proof {
                assert(cs.take(i + 1).drop_last() =~= cs.take(i as int));
                assert(cs.take(i + 1).last() == cands@[i as int]@);
            }
            processor.try_add_resource(cands[i].as_str(), &ctx);
            i = i + 1;
        }
        assert(cs.take(cands.len() as int) =~= cs);
        processor.into_resources()
    }
}


/// The title of a page: the text of its first `<title>` element.
pub open spec fn page_title(html: Seq<char>) -> Option<Seq<char>> {
    let t = selected_texts(html, "title"@);
    if t.len() > 0 {
        Some(t[0])
    } else {
        None
    }
}

pub open spec fn with_depth(urls: Seq<Seq<char>>, d: usize) -> Seq<(Seq<char>, usize)> {
    urls.map_values(|u: Seq<char>| (u, d))
}

/// Turns the HTML of a page into its links, its title and the entries it
/// offers to the frontier.
pub struct HtmlProcessor {
    blacklist: Blacklist,
    extractor: SimpleResourceExtractor,
}

impl HtmlProcessor {
    pub closed spec fn bl(&self) -> &Blacklist {
        &self.blacklist
    }

    /// A processor with an empty blacklist.
    pub fn new() -> (r: Self)
        ensures
            r.bl().domains@.len() == 0,
            r.bl().urls@.len() == 0,
            r.bl().patterns@.len() == 0,
    {
        HtmlProcessor { blacklist: Blacklist::new(), extractor: SimpleResourceExtractor::new() }
    }

    pub fn with_blacklist(blacklist: Blacklist) -> (r: Self)
        ensures
            *r.bl() == blacklist,
    {
        HtmlProcessor { blacklist, extractor: SimpleResourceExtractor::new() }
    }

    /// The links of the page (admitted, canonical, each once, in the order
    /// the candidates are tried), its title, and the links paired with
    /// `next_depth`.
    pub fn process(
        &self,
        base: &str,
        html: &str,
        next_depth: usize,
        base_domain: &str,
        base_path: &str,
    ) -> (r: (Vec<String>, Option<String>, Vec<(String, usize)>))
        ensures
            str_views(r.0@) == admit_all(self.bl(), page_base(html@, base@), page_candidates(html@)),
            crate::rewriter::opt_str_view(r.1) == page_title(html@),
            crate::engine::entry_views(r.2@) == with_depth(str_views(r.0@), next_depth),
    {
        let titles = select_texts(html, "title");
        let title = if titles.len() > 0 {
            Some(titles[0].clone())
        } else {
            None
        };
        let resources = self.extractor.extract_resources(
            html,
            base,
            next_depth,
            base_domain,
            base_path,
            &self.blacklist,
        );
        let mut links: Vec<String> = Vec::new();
        let mut new_urls: Vec<(String, usize)> = Vec::new();
        let mut i: usize = 0;
        while i < resources.len()
            invariant
                i <= resources.len(),
                forall|k: int| 0 <= k < resources@.len() ==> #[trigger] resources@[k].depth == next_depth,
                str_views(links@) == resource_urls(resources@).take(i as int),
                crate::engine::entry_views(new_urls@) == with_depth(str_views(links@), next_depth),
            decreases resources.len() - i,
        {
            let u = resources[i].url.clone();
            assert(u@ == resources@[i as int].url@);
            let ghost before_links = str_views(links@);
            let ghost before_new = crate::engine::entry_views(new_urls@);
            let u2 = u.clone();
            links.push(u2);
            new_urls.push((u, resources[i].depth));
            assert(crate::engine::entry_views(new_urls@) =~= before_new.push((resources@[i as int].url@, next_depth)));
            assert(str_views(links@) =~= before_links.push(resources@[i as int].url@));
            assert(str_views(links@) =~= resource_urls(resources@).take(i + 1));
            assert(crate::engine::entry_views(new_urls@) =~= with_depth(str_views(links@), next_depth));
            i = i + 1;
        }
        assert(resource_urls(resources@).take(resources.len() as int) =~= resource_urls(resources@));
        (links, title, new_urls)
    }
}

/// Decides which anchors lose their `href` before extraction.
pub struct HtmlPreprocessor;

/// An `href` that is blank, or that begins (after leading white space)
/// with `javascript:` or `data:`.
pub open spec fn unsafe_href(v: Seq<char>) -> bool {
    let t = v.skip(crate::css::skip_ws(v, 0));
    is_blank(v) || crate::text::starts_with(t, "javascript:"@) || crate::text::starts_with(t, "data:"@)
}

impl HtmlPreprocessor {
    pub fn new() -> (r: Self) {
        HtmlPreprocessor
    }

    /// Whether an anchor's `href` value is removed.
    pub fn should_remove_href(&self, value: &str) -> (r: bool)
        ensures
            r == unsafe_href(value@),
    {
        let v = chars_of(value);
        let a = crate::css::skip_ws_exec(v.as_slice(), 0);
        let t = sub_chars(v.as_slice(), a, v.len());
        assert(t@ =~= v@.skip(a as int));
        crate::text::blank(v.as_slice()) || crate::text::str_has_prefix(t.as_slice(), "javascript:")
            || crate::text::str_has_prefix(t.as_slice(), "data:")
    }
}

} // verus!
