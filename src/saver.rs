//! The site saver: maps every URL it sees to a local file under the mirror
//! root, and prepares each page's bytes (HTML with its links rewritten).
//! Writing the files is left to the caller.

use vstd::prelude::*;
use crate::models::PageInfo;
use crate::rewriter::{lookup, lookup_exec, opt_str_view, pair_views, rewritten, LinkRewriter};
use crate::text::{chars_of, contains, has_char, push_all, push_str, str_has_infix, string_of, sub_chars, contains_char};
use crate::urls::{canonical, canonicalize, join_url, joined_url, parse_url_parts, url_components};
use crate::validation::{after_last, valid_path, ResourceValidator};

verus! {

/// Saves a crawled site under an output directory.
pub struct SiteSaver {
    output_dir: String,
    url_to_path: Vec<(String, String)>,
    rewriter: LinkRewriter,
}

/// What the caller writes: the bytes of one file at its path.
pub struct SaveJob {
    pub path: String,
    pub content: String,
}

/// `a/b`, without doubling a slash that ends `a`.
pub open spec fn join_dir(a: Seq<char>, b: Seq<char>) -> Seq<char> {
    if a.len() == 0 {
        b
    } else if a.last() == '/' {
        a + b
    } else {
        a + seq!['/'] + b
    }
}

pub open spec fn trim_leading_slashes(s: Seq<char>) -> Seq<char>
    decreases s.len(),
{
    if s.len() > 0 && s[0] == '/' {
        trim_leading_slashes(s.drop_first())
    } else {
        s
    }
}

/// The local file of a URL path under the host's directory: `index.html`
/// for the root; `<path>index.html` for a path ending in `/`;
/// `<path>/index.html` where the last segment has no `.`; else the path.
pub open spec fn local_path(domain_dir: Seq<char>, path: Seq<char>) -> Seq<char> {
    if path == seq!['/'] {
        join_dir(domain_dir, "index.html"@)
    } else {
        let p = trim_leading_slashes(path);
        if p.len() > 0 && p.last() == '/' {
            join_dir(domain_dir, p + "index.html"@)
        } else if !has_char(after_last(p, '/'), '.') {
            join_dir(domain_dir, p + "/index.html"@)
        } else {
            join_dir(domain_dir, p)
        }
    }
}

/// The map after `url` is offered to it under `domain_dir`, and the path it
/// answers: the path already mapped to the canonical URL; else, where `url`
/// parses and its path passes the resource rules, the local path of that
/// path, newly mapped under the canonical URL; else nothing.
pub open spec fn map_step(
    entries: Seq<(Seq<char>, Seq<char>)>,
    domain_dir: Seq<char>,
    url: Seq<char>,
) -> (Seq<(Seq<char>, Seq<char>)>, Option<Seq<char>>) {
    let key = canonical(url);
    match lookup(entries, key) {
        Some(p) => (entries, Some(p)),
        None => match url_components(url) {
            Some(c) => if valid_path(c.3) {
                let p = local_path(domain_dir, c.3);
                (entries.push((key, p)), Some(p))
            } else {
                (entries, None)
            },
            None => (entries, None),
        },
    }
}

/// The map after each link of a page, resolved against the page's URL, is
/// offered to it in turn.
pub open spec fn map_links(
    entries: Seq<(Seq<char>, Seq<char>)>,
    domain_dir: Seq<char>,
    page_url: Seq<char>,
    links: Seq<Seq<char>>,
) -> Seq<(Seq<char>, Seq<char>)>
    decreases links.len(),
{
    if links.len() == 0 {
        entries
    } else {
        let prev = map_links(entries, domain_dir, page_url, links.drop_last());
        match joined_url(page_url, links.last()) {
            Some(j) => map_step(prev, domain_dir, j).0,
            None => prev,
        }
    }
}

/// A URL that the map accepts: it parses, and its path passes the resource
/// rules.
pub open spec fn mappable(url: Seq<char>) -> bool {
    match url_components(url) {
        Some(c) => valid_path(c.3),
        None => false,
    }
}

/// The page is HTML by its content type.
pub open spec fn is_html(content_type: Seq<char>) -> bool {
    contains(content_type, "text/html"@)
}

fn trim_leading_slashes_exec(s: &[char]) -> (r: Vec<char>)
    ensures
        r@ == trim_leading_slashes(s@),
{
    let mut i: usize = 0;
    proof {
        assert(s@.skip(0) =~= s@);
    }
    while i < s.len() && s[i] == '/'
        invariant
            i <= s.len(),
            trim_leading_slashes(s@) == trim_leading_slashes(s@.skip(i as int)),
        decreases s.len() - i,
    {
        proof {
            assert(s@.skip(i as int).drop_first() =~= s@.skip(i + 1));
        }
        i = i + 1;
    }
    assert(s@.skip(i as int) =~= s@.subrange(i as int, s.len() as int));
    sub_chars(s, i, s.len())
}

fn join_dir_exec(a: &[char], b: &[char]) -> (r: Vec<char>)
    ensures
        r@ == join_dir(a@, b@),
{
    let mut out: Vec<char> = Vec::new();
    push_all(&mut out, a);
    if a.len() > 0 && a[a.len() - 1] != '/' {
        out.push('/');
    }
    push_all(&mut out, b);
    assert(out@ =~= join_dir(a@, b@));
    out
}

fn local_path_exec(domain_dir: &[char], path: &[char]) -> (r: Vec<char>)
    ensures
        r@ == local_path(domain_dir@, path@),
{
    if path.len() == 1 && path[0] == '/' {
        assert(path@ =~= seq!['/']);
        return join_dir_exec(domain_dir, chars_of("index.html").as_slice());
    }
    assert(path@ != seq!['/']);
    let mut p = trim_leading_slashes_exec(path);
    if p.len() > 0 && p[p.len() - 1] == '/' {
        push_str(&mut p, "index.html");
        return join_dir_exec(domain_dir, p.as_slice());
    }
    let name = crate::validation::after_last_exec(p.as_slice(), '/');
    if !contains_char(name.as_slice(), '.') {
        push_str(&mut p, "/index.html");
        join_dir_exec(domain_dir, p.as_slice())
    } else {
        join_dir_exec(domain_dir, p.as_slice())
    }
}

proof fn lemma_lookup_push(es: Seq<(Seq<char>, Seq<char>)>, x: (Seq<char>, Seq<char>), k: Seq<char>)
    ensures
        lookup(es, k) is Some ==> lookup(es.push(x), k) == lookup(es, k),
        lookup(es, k) is None ==> lookup(es.push(x), k) == (if x.0 == k {
            Some(x.1)
        } else {
            None::<Seq<char>>
        }),
    decreases es.len(),
{
    if es.len() == 0 {
        assert(es.push(x).drop_first() =~= Seq::<(Seq<char>, Seq<char>)>::empty());
    } else {
        assert(es.push(x).drop_first() =~= es.drop_first().push(x));
        lemma_lookup_push(es.drop_first(), x, k);
    }
}

proof fn lemma_map_step_keeps(
    es: Seq<(Seq<char>, Seq<char>)>,
    dir: Seq<char>,
    url: Seq<char>,
    k: Seq<char>,
)
    requires
        lookup(es, k) is Some,
    ensures
        lookup(map_step(es, dir, url).0, k) == lookup(es, k),
{
    let key = canonical(url);
    if lookup(es, key) is None {
        if let Some(c) = url_components(url) {
            if valid_path(c.3) {
                lemma_lookup_push(es, (key, local_path(dir, c.3)), k);
            }
        }
    }
}

/// A URL, once mapped, keeps its path: offering any URL to the map leaves
/// the path of every mapped URL as it was, and offering a mapped URL again
/// answers its path.
pub proof fn lemma_map_is_stable(
    es: Seq<(Seq<char>, Seq<char>)>,
    dir: Seq<char>,
    url: Seq<char>,
    k: Seq<char>,
)
    requires
        lookup(es, k) is Some,
    ensures
        lookup(map_step(es, dir, url).0, k) == lookup(es, k),
        canonical(url) == k ==> map_step(es, dir, url).1 == lookup(es, k),
{
    lemma_map_step_keeps(es, dir, url, k);
}

/// Offering a URL maps it, where its canonical form parses with a path
/// that passes the resource rules.
proof fn lemma_map_step_maps(es: Seq<(Seq<char>, Seq<char>)>, dir: Seq<char>, url: Seq<char>)
    requires
        mappable(url),
    ensures
        lookup(map_step(es, dir, url).0, canonical(url)) is Some,
{
    let key = canonical(url);
    if lookup(es, key) is None {
        let c = url_components(url).unwrap();
        lemma_lookup_push(es, (key, local_path(dir, c.3)), key);
    }
}

/// Link map totality: after a page's links are offered to the map, every
/// link that resolves against the page's URL to a URL whose path passes the
/// resource rules is a key of the map, under its canonical form.
pub proof fn lemma_links_mapped(
    es: Seq<(Seq<char>, Seq<char>)>,
    dir: Seq<char>,
    page_url: Seq<char>,
    links: Seq<Seq<char>>,
)
    ensures
        forall|i: int|
            0 <= i < links.len() && joined_url(page_url, #[trigger] links[i]) is Some && mappable(
                joined_url(page_url, links[i])->0,
            ) ==> lookup(
                map_links(es, dir, page_url, links),
                canonical(joined_url(page_url, links[i])->0),
            ) is Some,
    decreases links.len(),
{
    if links.len() > 0 {
        let prev_links = links.drop_last();
        lemma_links_mapped(es, dir, page_url, prev_links);
        let prev = map_links(es, dir, page_url, prev_links);
        assert forall|i: int|
            0 <= i < links.len() && joined_url(page_url, #[trigger] links[i]) is Some && mappable(
                joined_url(page_url, links[i])->0,
            ) implies lookup(
            map_links(es, dir, page_url, links),
            canonical(joined_url(page_url, links[i])->0),
        ) is Some by {
            let k = canonical(joined_url(page_url, links[i])->0);
            if i < links.len() - 1 {
                assert(links[i] == prev_links[i]);
                assert(lookup(prev, k) is Some);
                if let Some(j) = joined_url(page_url, links.last()) {
                    lemma_map_step_keeps(prev, dir, j, k);
                }
            } else {
                lemma_map_step_maps(prev, dir, joined_url(page_url, links.last())->0);
            }
        }
    }
}

impl SiteSaver {
    pub closed spec fn entries(&self) -> Seq<(Seq<char>, Seq<char>)> {
        pair_views(self.url_to_path@)
    }

    pub closed spec fn output_dir(&self) -> Seq<char> {
        self.output_dir@
    }

    /// A saver writing under `output_dir`, with an empty map.
    pub fn new(output_dir: &str) -> (r: Self)
        ensures
            r.entries().len() == 0,
            r.output_dir() == output_dir@,
    {
        let r = SiteSaver {
            output_dir: output_dir.to_string(),
            url_to_path: Vec::new(),
            rewriter: LinkRewriter::new(),
        };
        assert(r.entries() =~= Seq::<(Seq<char>, Seq<char>)>::empty());
        r
    }

    /// The local path of `source_url` under `domain_dir`, mapping it first
    /// where it is new.
    pub fn map_source_url_to_target_path(&mut self, source_url: &str, domain_dir: &str) -> (r: Option<String>)
        ensures
            final(self).output_dir() == old(self).output_dir(),
            final(self).entries() == map_step(old(self).entries(), domain_dir@, source_url@).0,
            opt_str_view(r) == map_step(old(self).entries(), domain_dir@, source_url@).1,
    {
        let key = canonicalize(source_url);
        let existing = lookup_exec(&self.url_to_path, &key);
        if existing.is_some() {
            return existing;
        }
        let parts = match parse_url_parts(source_url) {
            Some(p) => p,
            None => {
                return None;
            },
        };
        let path = chars_of(parts.path.as_str());
        if !ResourceValidator::is_valid_path(path.as_slice()) {
            return None;
        }
        let local = local_path_exec(chars_of(domain_dir).as_slice(), path.as_slice());
        let ls = string_of(local.as_slice());
        let ghost before = self.entries();
        let ghost key_view = key@;
        self.url_to_path.push((key, ls.clone()));
        assert(self.entries() =~= before.push((key_view, local@)));
        Some(ls)
    }

    /// The map from canonical URL to local path, as entries.
    pub fn url_to_path(&self) -> (r: &Vec<(String, String)>)
        ensures
            pair_views(r@) == self.entries(),
    {
        &self.url_to_path
    }

    /// Maps a crawled page and, for HTML, each of its links, then returns
    /// the file to write: the page's local path with its body, the links of
    /// HTML rewritten against the map. Fails where the seed URL does not
    /// parse or has no host; gives `None` where the page itself cannot be
    /// mapped.
    pub fn save_page_from_content(&mut self, page: &PageInfo, base_url: &str) -> (r: Result<Option<SaveJob>, String>)
        ensures
            final(self).output_dir() == old(self).output_dir(),
            match url_components(base_url@) {
                None => r is Err && final(self).entries() == old(self).entries(),
                Some(c) => match c.1 {
                    None => r is Err && final(self).entries() == old(self).entries(),
                    Some(host) => {
                        let dir = join_dir(old(self).output_dir(), host);
                        let first = map_step(old(self).entries(), dir, page.url@);
                        match first.1 {
                            None => r == Ok::<Option<SaveJob>, String>(None) && final(self).entries() == first.0,
                            Some(p) => r is Ok && r->Ok_0 is Some && r->Ok_0->0.path@ == p && if is_html(page.content_type@) {
                                &&& final(self).entries() == map_links(first.0, dir, page.url@, crate::engine::str_views(page.links@))
                                &&& r->Ok_0->0.content@ == rewritten(page.url@, page.content@, final(self).entries())
                            } else {
                                &&& final(self).entries() == first.0
                                &&& r->Ok_0->0.content@ == page.content@
                            },
                        }
                    },
                },
            },
    {
        let parts = match parse_url_parts(base_url) {
            Some(p) => p,
            None => {
                return Err("Invalid base URL".to_string());
            },
        };
        let host = match parts.host {
            Some(h) => h,
            None => {
                return Err("Base URL has no host".to_string());
            },
        };
        let dir_chars = join_dir_exec(chars_of(self.output_dir.as_str()).as_slice(), chars_of(host.as_str()).as_slice());
        let domain_dir = string_of(dir_chars.as_slice());
        let local_path = match self.map_source_url_to_target_path(page.url.as_str(), domain_dir.as_str()) {
            Some(p) => p,
            None => {
                return Ok(None);
            },
        };
        let html = str_has_infix(chars_of(page.content_type.as_str()).as_slice(), "text/html");
        if html {
            let ghost links = crate::engine::str_views(page.links@);
            let ghost start = self.entries();
            let mut i: usize = 0;
            while i < page.links.len()
                invariant
                    i <= page.links.len(),
                    links == crate::engine::str_views(page.links@),
                    self.output_dir() == old(self).output_dir(),
                    self.entries() == map_links(start, domain_dir@, page.url@, links.take(i as int)),
                decreases page.links.len() - i,
            {
                proof {
                    assert(links.take(i + 1).drop_last() =~= links.take(i as int));
                    assert(links.take(i + 1).last() == page.links@[i as int]@);
                }
                match join_url(page.url.as_str(), page.links[i].as_str()) {
                    Some(j) => {
                        let _ = self.map_source_url_to_target_path(j.as_str(), domain_dir.as_str());
                    },
                    None => {},
                }
                i = i + 1;
            }
            assert(links.take(page.links.len() as int) =~= links);
            let content = self.rewriter.rewrite_links(page.url.as_str(), page.content.as_str(), &self.url_to_path);
            Ok(Some(SaveJob { path: local_path, content }))
        } else {
            Ok(Some(SaveJob { path: local_path, content: page.content.clone() }))
        }
    }
}

} // verus!
