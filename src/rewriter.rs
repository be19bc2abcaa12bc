//! Rewriting of `href` and `src` values in HTML to paths relative to the
//! page's own file in the mirror.

use vstd::prelude::*;
use crate::text::{blank, chars_of, is_blank, matches_at, occurs_at, push_all, starts_with, str_has_prefix, string_of, sub_chars};
use crate::urls::{canonical, canonicalize, host_of, join_url, joined_url, parse_url_parts, url_components};
use crate::path_calc::{
    components, follow, lemma_relative_parts_reach_target, no_up_steps, relative_parts, relative_path,
    PathCalculator,
};
use crate::urls::join_with;

verus! {

/// The URL→path map as a list of `(canonical url, local path)` entries.
pub open spec fn lookup(entries: Seq<(Seq<char>, Seq<char>)>, key: Seq<char>) -> Option<Seq<char>>
    decreases entries.len(),
{
    if entries.len() == 0 {
        None
    } else if entries[0].0 == key {
        Some(entries[0].1)
    } else {
        lookup(entries.drop_first(), key)
    }
}

pub open spec fn pair_views(v: Seq<(String, String)>) -> Seq<(Seq<char>, Seq<char>)> {
    v.map_values(|e: (String, String)| (e.0@, e.1@))
}

/// The path mapped to `key`, if any.
pub fn lookup_exec(entries: &Vec<(String, String)>, key: &String) -> (r: Option<String>)
    ensures
        opt_str_view(r) == lookup(pair_views(entries@), key@),
{
    let ghost es = pair_views(entries@);
    let mut i: usize = 0;
    proof {
        assert(es.skip(0) =~= es);
    }
    while i < entries.len()
        invariant
            es == pair_views(entries@),
            i <= entries.len(),
            lookup(es, key@) == lookup(es.skip(i as int), key@),
        decreases entries.len() - i,
    {
        proof {
            assert(es.skip(i as int)[0] == es[i as int]);
            assert(es.skip(i as int).drop_first() =~= es.skip(i + 1));
        }
        if entries[i].0 == *key {
            return Some(entries[i].1.clone());
        }
        i = i + 1;
    }
    None
}

pub open spec fn opt_str_view(o: Option<String>) -> Option<Seq<char>> {
    match o {
        Some(s) => Some(s@),
        None => None,
    }
}

/// Decides which attribute values are rewritten.
pub struct RewriteValidator;

pub open spec fn non_http_scheme(v: Seq<char>) -> bool {
    starts_with(v, "javascript:"@) || starts_with(v, "mailto:"@) || starts_with(v, "data:"@)
        || starts_with(v, "tel:"@) || starts_with(v, "ftp:"@)
}

pub open spec fn absolute_http(v: Seq<char>) -> bool {
    starts_with(v, "http://"@) || starts_with(v, "https://"@)
}

/// A value is rewritten unless it is blank, a fragment, of a non-HTTP
/// scheme, or an absolute HTTP URL on another host than the page's.
pub open spec fn should_rewrite(v: Seq<char>, base_host: Option<Seq<char>>) -> bool {
    !is_blank(v) && !starts_with(v, "#"@) && !non_http_scheme(v) && (absolute_http(v) ==> (
    url_components(v) is Some && host_of(v) == base_host))
}

impl RewriteValidator {
    /// Whether the attribute value is to be rewritten, for a page on
    /// `base_host`.
    pub fn should_rewrite_url(url_value: &str, base_host: &Option<String>) -> (r: bool)
        ensures
            r == should_rewrite(url_value@, opt_str_view(*base_host)),
    {
        let v = chars_of(url_value);
        let s = v.as_slice();
        if blank(s) || str_has_prefix(s, "#") {
            return false;
        }
        if str_has_prefix(s, "javascript:") || str_has_prefix(s, "mailto:") || str_has_prefix(
            s,
            "data:",
        ) || str_has_prefix(s, "tel:") || str_has_prefix(s, "ftp:") {
            return false;
        }
        if str_has_prefix(s, "http://") || str_has_prefix(s, "https://") {
            return match parse_url_parts(url_value) {
                Some(p) => match (&p.host, base_host) {
                    (Some(a), Some(b)) => *a == *b,
                    (None, None) => true,
                    _ => false,
                },
                None => false,
            };
        }
        true
    }
}

/// What a page needs to rewrite its links: its URL, its own local path,
/// its host, and the URL→path map.
pub struct RewriteContext {
    pub current_url: String,
    pub current_path: String,
    pub base_host: Option<String>,
}

/// The relative path that replaces the value `v`, if it is rewritten and
/// its canonical target is mapped.
pub open spec fn replacement(
    cur_url: Seq<char>,
    cur_path: Seq<char>,
    base_host: Option<Seq<char>>,
    entries: Seq<(Seq<char>, Seq<char>)>,
    v: Seq<char>,
) -> Option<Seq<char>> {
    if !should_rewrite(v, base_host) {
        None
    } else {
        match joined_url(cur_url, v) {
            Some(j) => match lookup(entries, canonical(j)) {
                Some(target) => Some(relative_path(cur_path, target)),
                None => None,
            },
            None => None,
        }
    }
}

/// The end of the run of characters from `i` that differ from `q`.
pub open spec fn value_end(s: Seq<char>, i: int, q: char) -> int
    decreases s.len() - i,
{
    if i < 0 || i >= s.len() || s[i] == q {
        i
    } else {
        value_end(s, i + 1, q)
    }
}

/// An occurrence of `name="value"` (with `q` as the quote) at index `i`,
/// with a non-empty value: the bounds of the value.
pub open spec fn attr_at(s: Seq<char>, i: int, name: Seq<char>, q: char) -> Option<(int, int)> {
    let head = name + seq!['=', q];
    if !occurs_at(s, head, i) {
        None
    } else {
        let vs = i + head.len();
        let ve = value_end(s, vs, q);
        if ve > vs && ve < s.len() {
            Some((vs, ve))
        } else {
            None
        }
    }
}

/// One pass over `s` from index `i`: each occurrence of `name="value"`,
/// left to right, has its value replaced where `replacement` gives one;
/// everything else is copied.
pub open spec fn rewrite_pass_from(
    s: Seq<char>,
    i: int,
    name: Seq<char>,
    q: char,
    cur_url: Seq<char>,
    cur_path: Seq<char>,
    base_host: Option<Seq<char>>,
    entries: Seq<(Seq<char>, Seq<char>)>,
) -> Seq<char>
    decreases s.len() - i,
{
    if i < 0 || i >= s.len() {
        Seq::<char>::empty()
    } else {
        match attr_at(s, i, name, q) {
            Some(m) => {
                let piece = match replacement(
                    cur_url,
                    cur_path,
                    base_host,
                    entries,
                    s.subrange(m.0, m.1),
                ) {
                    Some(rel) => name + seq!['=', q] + rel + seq![q],
                    None => s.subrange(i, m.1 + 1),
                };
                piece + rewrite_pass_from(s, m.1 + 1, name, q, cur_url, cur_path, base_host, entries)
            },
            None => seq![s[i]] + rewrite_pass_from(
                s,
                i + 1,
                name,
                q,
                cur_url,
                cur_path,
                base_host,
                entries,
            ),
        }
    }
}

/// The four passes, in order: `href="…"`, `href='…'`, `src="…"`, `src='…'`.
pub open spec fn rewrite_all(
    s: Seq<char>,
    cur_url: Seq<char>,
    cur_path: Seq<char>,
    base_host: Option<Seq<char>>,
    entries: Seq<(Seq<char>, Seq<char>)>,
) -> Seq<char> {
    let a = rewrite_pass_from(s, 0, "href"@, '"', cur_url, cur_path, base_host, entries);
    let b = rewrite_pass_from(a, 0, "href"@, '\'', cur_url, cur_path, base_host, entries);
    let c = rewrite_pass_from(b, 0, "src"@, '"', cur_url, cur_path, base_host, entries);
    rewrite_pass_from(c, 0, "src"@, '\'', cur_url, cur_path, base_host, entries)
}

/// The local path of the page: its canonical URL's entry, else that of the
/// URL as given, without its trailing slashes, or with exactly one.
pub open spec fn current_path_of(
    cur: Seq<char>,
    entries: Seq<(Seq<char>, Seq<char>)>,
) -> Option<Seq<char>> {
    let trimmed = trim_trailing_slashes(cur);
    if lookup(entries, canonical(cur)) is Some {
        lookup(entries, canonical(cur))
    } else if lookup(entries, canonical(trimmed)) is Some {
        lookup(entries, canonical(trimmed))
    } else {
        lookup(entries, canonical(trimmed.push('/')))
    }
}

pub open spec fn trim_trailing_slashes(s: Seq<char>) -> Seq<char>
    decreases s.len(),
{
    if s.len() > 0 && s.last() == '/' {
        trim_trailing_slashes(s.drop_last())
    } else {
        s
    }
}

/// The HTML after rewriting: unchanged where the page has no local path or
/// its URL does not parse; else with the four passes applied.
pub open spec fn rewritten(
    cur: Seq<char>,
    content: Seq<char>,
    entries: Seq<(Seq<char>, Seq<char>)>,
) -> Seq<char> {
    match current_path_of(cur, entries) {
        None => content,
        Some(p) => match url_components(cur) {
            None => content,
            Some(c) => rewrite_all(content, cur, p, c.1, entries),
        },
    }
}


/// The replacement of the value `v` for the page in `ctx`.
fn replacement_exec(ctx: &RewriteContext, entries: &Vec<(String, String)>, v: &[char]) -> (r: Option<Vec<char>>)
    ensures
        match r {
            Some(x) => replacement(ctx.current_url@, ctx.current_path@, opt_str_view(ctx.base_host), pair_views(entries@), v@) == Some(x@),
            None => replacement(ctx.current_url@, ctx.current_path@, opt_str_view(ctx.base_host), pair_views(entries@), v@) is None,
        },
{
    let vs = string_of(v);
    if !RewriteValidator::should_rewrite_url(vs.as_str(), &ctx.base_host) {
        return None;
    }
    let resolver = UrlResolver::new();
    match resolver.resolve_and_normalize(ctx.current_url.as_str(), vs.as_str()) {
        Some(key) => {
            match lookup_exec(entries, &key) {
                Some(target) => {
                    let rel = PathCalculator::calculate_relative_path(ctx.current_path.as_str(), target.as_str());
                    Some(chars_of(rel.as_str()))
                },
                None => None,
            }
        },
        None => None,
    }
}

fn value_end_exec(s: &[char], i: usize, q: char) -> (r: usize)
    requires
        i <= s.len(),
    ensures
        r == value_end(s@, i as int, q),
        i <= r <= s.len(),
{
    let mut j: usize = i;
    while j < s.len() && s[j] != q
        invariant
            i <= j <= s.len(),
            value_end(s@, i as int, q) == value_end(s@, j as int, q),
        decreases s.len() - j,
    {
        j = j + 1;
    }
    j
}

/// One rewriting pass over `s` for attribute `name` quoted by `q`.
fn rewrite_pass(s: &[char], name: &str, q: char, ctx: &RewriteContext, entries: &Vec<(String, String)>) -> (r: Vec<char>)
    ensures
        r@ == rewrite_pass_from(s@, 0, name@, q, ctx.current_url@, ctx.current_path@, opt_str_view(ctx.base_host), pair_views(entries@)),
{
    let ghost cu = ctx.current_url@;
    let ghost cp = ctx.current_path@;
    let ghost bh = opt_str_view(ctx.base_host);
    let ghost es = pair_views(entries@);
    let mut head = chars_of(name);
    head.push('=');
    head.push(q);
    assert(head@ =~= name@ + seq!['=', q]);
    let mut out: Vec<char> = Vec::new();
    let mut i: usize = 0;
    while i < s.len()
        invariant
            i <= s.len(),
            head@ == name@ + seq!['=', q],
            cu == ctx.current_url@,
            cp == ctx.current_path@,
            bh == opt_str_view(ctx.base_host),
            es == pair_views(entries@),
            out@ + rewrite_pass_from(s@, i as int, name@, q, cu, cp, bh, es) == rewrite_pass_from(s@, 0, name@, q, cu, cp, bh, es),
        decreases s.len() - i,
    {
        let ghost rest = rewrite_pass_from(s@, i as int, name@, q, cu, cp, bh, es);
        let ghost before = out@;
        let mut matched = false;
        if matches_at(s, head.as_slice(), i) {
            let vs = i + head.len();
            let ve = value_end_exec(s, vs, q);
            if ve > vs && ve < s.len() {
                matched = true;
                let v = sub_chars(s, vs, ve);
                match replacement_exec(ctx, entries, v.as_slice()) {
                    Some(rel) => {
                        push_all(&mut out, head.as_slice());
                        push_all(&mut out, rel.as_slice());
                        out.push(q);
                        assert(out@ =~= before + (name@ + seq!['=', q] + rel@ + seq![q]));
                    },
                    None => {
                        let orig = sub_chars(s, i, ve + 1);
                        push_all(&mut out, orig.as_slice());
                    },
                }
                proof {
                    assert(attr_at(s@, i as int, name@, q) == Some((vs as int, ve as int)));
                    assert(v@ == s@.subrange(vs as int, ve as int));
                }
                assert(out@ + rewrite_pass_from(s@, ve + 1, name@, q, cu, cp, bh, es) =~= before + rest);
                i = ve + 1;
            }
        }
        if !matched {
            out.push(s[i]);
            assert(attr_at(s@, i as int, name@, q) is None);
            assert(out@ + rewrite_pass_from(s@, i + 1, name@, q, cu, cp, bh, es) =~= before + rest);
            i = i + 1;
        }
    }
    assert(out@ + rewrite_pass_from(s@, i as int, name@, q, cu, cp, bh, es) =~= out@);
    out
}

fn trim_trailing_slashes_exec(s: &[char]) -> (r: Vec<char>)
    ensures
        r@ == trim_trailing_slashes(s@),
{
    let mut n: usize = s.len();
    proof {
        assert(s@.take(n as int) =~= s@);
    }
    while n > 0 && s[n - 1] == '/'
        invariant
            n <= s.len(),
            trim_trailing_slashes(s@) == trim_trailing_slashes(s@.take(n as int)),
        decreases n,
    {
        proof {
            assert(s@.take(n as int).drop_last() =~= s@.take(n - 1));
        }
        n = n - 1;
    }
    sub_chars(s, 0, n)
}

/// Finds the page's path in the map.
pub struct UrlResolver;

impl UrlResolver {
    pub fn new() -> (r: Self) {
        UrlResolver
    }

    /// The canonical form of `relative_url` joined to `base_url`, where the
    /// join succeeds.
    pub fn resolve_and_normalize(&self, base_url: &str, relative_url: &str) -> (r: Option<String>)
        ensures
            opt_str_view(r) == match joined_url(base_url@, relative_url@) {
                Some(j) => Some(canonical(j)),
                None => None,
            },
    {
        match join_url(base_url, relative_url) {
            Some(j) => Some(canonicalize(j.as_str())),
            None => None,
        }
    }

    /// The local path of the page at `current_url`, trying its canonical
    /// form and then two variants of its trailing slash.
    pub fn find_current_path(&self, current_url: &str, entries: &Vec<(String, String)>) -> (r: Option<String>)
        ensures
            opt_str_view(r) == current_path_of(current_url@, pair_views(entries@)),
    {
        let c = canonicalize(current_url);
        let first = lookup_exec(entries, &c);
        if first.is_some() {
            return first;
        }
        let trimmed = trim_trailing_slashes_exec(chars_of(current_url).as_slice());
        let t = string_of(trimmed.as_slice());
        let second = lookup_exec(entries, &canonicalize(t.as_str()));
        if second.is_some() {
            return second;
        }
        let mut with_slash = trimmed;
        with_slash.push('/');
        let w = string_of(with_slash.as_slice());
        lookup_exec(entries, &canonicalize(w.as_str()))
    }
}

/// Rewrites the values of one attribute name.
pub struct AttributeProcessor;

impl AttributeProcessor {
    pub fn new() -> (r: Self) {
        AttributeProcessor
    }

    /// The content with the `attr_name="…"` values rewritten, then the
    /// `attr_name='…'` values.
    pub fn apply_attribute_replacements(
        &self,
        content: &[char],
        attr_name: &str,
        ctx: &RewriteContext,
        entries: &Vec<(String, String)>,
    ) -> (r: Vec<char>)
        ensures
            r@ == rewrite_pass_from(
                rewrite_pass_from(content@, 0, attr_name@, '"', ctx.current_url@, ctx.current_path@, opt_str_view(ctx.base_host), pair_views(entries@)),
                0,
                attr_name@,
                '\'',
                ctx.current_url@,
                ctx.current_path@,
                opt_str_view(ctx.base_host),
                pair_views(entries@),
            ),
    {
        let once = rewrite_pass(content, attr_name, '"', ctx, entries);
        rewrite_pass(once.as_slice(), attr_name, '\'', ctx, entries)
    }
}

/// The link rewriter.
pub struct LinkRewriter {
    url_resolver: UrlResolver,
    attribute_processor: AttributeProcessor,
}

impl LinkRewriter {
    pub fn new() -> (r: Self) {
        LinkRewriter { url_resolver: UrlResolver, attribute_processor: AttributeProcessor }
    }

    /// The HTML of the page at `current_url` with each `href`/`src` value
    /// whose canonical target is mapped replaced by the relative path from
    /// the page's file to the target's.
    pub fn rewrite_links(&self, current_url: &str, content: &str, entries: &Vec<(String, String)>) -> (r: String)
        ensures
            r@ == rewritten(current_url@, content@, pair_views(entries@)),
    {
        let current_path = match self.url_resolver.find_current_path(current_url, entries) {
            Some(p) => p,
            None => {
                return content.to_string();
            },
        };
        let parts = match parse_url_parts(current_url) {
            Some(p) => p,
            None => {
                return content.to_string();
            },
        };
        let ctx = RewriteContext {
            current_url: current_url.to_string(),
            current_path,
            base_host: parts.host,
        };
        let s0 = chars_of(content);
        let s2 = self.attribute_processor.apply_attribute_replacements(s0.as_slice(), "href", &ctx, entries);
        let s4 = self.attribute_processor.apply_attribute_replacements(s2.as_slice(), "src", &ctx, entries);
        string_of(s4.as_slice())
    }
}


/// Rewrite fidelity: a value that is replaced gets the relative path from
/// the page's file to the file mapped to the value's canonical target.
/// Where the page's file has a parent directory, neither path has a `..`
/// component and the two are different places, that path is the steps of
/// `relative_parts` joined by `/`, and following those steps from the
/// page's directory reaches the target's components.
pub proof fn lemma_rewrite_fidelity(
    cur_url: Seq<char>,
    cur_path: Seq<char>,
    base_host: Option<Seq<char>>,
    entries: Seq<(Seq<char>, Seq<char>)>,
    v: Seq<char>,
)
    requires
        replacement(cur_url, cur_path, base_host, entries, v) is Some,
    ensures
        ({
            let target = lookup(entries, canonical(joined_url(cur_url, v)->0))->0;
            let fc = components(cur_path);
            let steps = relative_parts(fc.drop_last(), components(target));
            &&& replacement(cur_url, cur_path, base_host, entries, v) == Some(
                relative_path(cur_path, target),
            )
            &&& (fc.len() > 0 && fc != seq![seq!['/']] && no_up_steps(fc) && no_up_steps(
                components(target),
            ) && steps.len() > 0 ==> relative_path(cur_path, target) == join_with(steps, '/')
                && follow(fc.drop_last(), steps) == components(target))
        }),
{
    let target = lookup(entries, canonical(joined_url(cur_url, v)->0))->0;
    let fc = components(cur_path);
    if fc.len() > 0 && fc != seq![seq!['/']] && no_up_steps(fc) && no_up_steps(components(target)) {
        assert(no_up_steps(fc.drop_last()));
        lemma_relative_parts_reach_target(fc.drop_last(), components(target));
    }
}

} // verus!
