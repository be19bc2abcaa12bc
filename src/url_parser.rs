//! The URL predicates of the crawler: event-handler and template values,
//! recursive-path traps, domain scope, and resolution of links.

use vstd::prelude::*;
use crate::text::{sub_chars, chars_of, contains, contains_char, has_char, starts_with, str_has_infix, str_has_prefix, to_ascii_lower, ascii_lower, ends_with, has_suffix, push_all};
use crate::urls::{
    canonical, canonicalize, joined_url, join_url, url_components, parse_url_parts, split_on,
    split_on_exec, views, host_of,
};

verus! {

/// Resolution of a link found on a page against the page's URL.
pub trait UrlParser {
    /// The canonical URL that `href` names relative to `base`, or `None`
    /// where `href` is no link to follow.
    fn resolve_url(&self, base: &str, href: &str) -> (r: Option<String>)
        ensures
            match r {
                Some(s) => resolved(base@, href@) == Some(s@),
                None => resolved(base@, href@) is None,
            },
    ;
}

/// The standard URL parser, built on the `url` crate.
pub struct StandardUrlParser;

/// The value holds a `(` followed later by a `)`.
pub open spec fn parenthesised(v: Seq<char>) -> bool {
    exists|i: int, j: int| 0 <= i < j < v.len() && v[i] == '(' && v[j] == ')'
}

/// A value that is script or inline data rather than a link: it starts with
/// `javascript:` or `data:`, holds both `:` and `;`, or holds parenthesised
/// content.
pub open spec fn event_handler(v: Seq<char>) -> bool {
    starts_with(v, "javascript:"@) || starts_with(v, "data:"@) || (has_char(v, ':') && has_char(
        v,
        ';',
    )) || parenthesised(v)
}

/// A template placeholder (`{{`, `}}`) or a fragment-only reference.
pub open spec fn invalid_url_pattern(v: Seq<char>) -> bool {
    contains(v, "{{"@) || contains(v, "}}"@) || starts_with(v, "#"@)
}

/// A scheme that names no fetchable resource.
pub open spec fn non_fetch_scheme(v: Seq<char>) -> bool {
    starts_with(v, "javascript:"@) || starts_with(v, "data:"@) || starts_with(v, "mailto:"@)
        || starts_with(v, "tel:"@) || starts_with(v, "ftp:"@)
}

/// What `href` resolves to against `base`: nothing for an empty value, a
/// fragment, a non-fetchable scheme, a template placeholder, or a failed
/// join; otherwise the canonical form of the joined URL.
pub open spec fn resolved(base: Seq<char>, href: Seq<char>) -> Option<Seq<char>> {
    if href.len() == 0 || starts_with(href, "#"@) || non_fetch_scheme(href) || contains(
        href,
        "{{"@,
    ) || contains(href, "}}"@) {
        None
    } else {
        match joined_url(base, href) {
            Some(j) => Some(canonical(j)),
            None => None,
        }
    }
}

// ---------------------------------------------------------------------------
// Recursive-path traps

/// The index of the first `/` after index `i`, or the length of `s`.
pub open spec fn next_slash(s: Seq<char>, i: int) -> int
    decreases s.len() - i,
{
    if i + 1 >= s.len() {
        s.len() as int
    } else if s[i + 1] == '/' {
        i + 1
    } else {
        next_slash(s, i + 1)
    }
}

/// The five segments from index `a` have 1 to 50 characters each.
pub open spec fn short_run_at(segs: Seq<Seq<char>>, a: int) -> bool {
    0 <= a && a + 5 <= segs.len() && forall|k: int| a <= k < a + 5 ==> 1 <= #[trigger] segs[k].len() <= 50
}

/// Five consecutive path segments of 1 to 50 characters each.
pub open spec fn five_short_segments(segs: Seq<Seq<char>>) -> bool {
    exists|a: int| #[trigger] short_run_at(segs, a)
}

/// Three identical path segments in a row.
pub open spec fn three_in_a_row(segs: Seq<Seq<char>>) -> bool {
    exists|a: int|
        0 <= a && a + 2 < segs.len() && #[trigger] segs[a] == segs[a + 1] && segs[a + 1] == segs[a
            + 2]
}

/// A path segment that occurs more than twice.
pub open spec fn repeated_thrice(segs: Seq<Seq<char>>) -> bool {
    exists|a: int, b: int, c: int|
        0 <= a < b < c < segs.len() && #[trigger] segs[a] == #[trigger] segs[b] && #[trigger] segs[c]
            == segs[a]
}

/// The segments of a path: the pieces between slashes after the leading one.
pub open spec fn segments_of_path(p: Seq<char>) -> Seq<Seq<char>> {
    if p.len() > 0 && p[0] == '/' {
        split_on(p.drop_first(), '/')
    } else {
        split_on(p, '/')
    }
}

/// The segments of the URL's parsed path, where it parses.
pub open spec fn path_segments(u: Seq<char>) -> Seq<Seq<char>> {
    match url_components(u) {
        Some(c) => segments_of_path(c.3),
        None => Seq::<Seq<char>>::empty(),
    }
}

/// A URL that shows the marks of server-side path reflection: three
/// slashes in a row, an encoded double slash, four `../` in a row, or, in
/// its parsed path, five consecutive short segments, three identical
/// segments in a row, or a segment that occurs more than twice.
pub open spec fn recursive_url(u: Seq<char>) -> bool {
    contains(u, "///"@) || contains(ascii_lower(u), "%2f%2f"@) || contains(u, "../../../../"@)
        || five_short_segments(path_segments(u)) || three_in_a_row(path_segments(u))
        || repeated_thrice(path_segments(u))
}

// ---------------------------------------------------------------------------
// Scope

/// The host matches one allowed-domain pattern: equal to it, or, for a
/// pattern `*.suffix`, equal to the suffix or ending in `.suffix`.
pub open spec fn host_matches(host: Seq<char>, pattern: Seq<char>) -> bool {
    if starts_with(pattern, "*."@) {
        let suffix = pattern.skip(2);
        host == suffix || ends_with(host, seq!['.'] + suffix)
    } else {
        host == pattern
    }
}

/// The URL may be crawled under the allowed domains: no restriction when
/// the list is empty, else its host matches some pattern.
pub open spec fn in_scope(u: Seq<char>, domains: Seq<Seq<char>>) -> bool {
    domains.len() == 0 || match host_of(u) {
        Some(h) => exists|i: int| 0 <= i < domains.len() && host_matches(h, #[trigger] domains[i]),
        None => false,
    }
}

pub proof fn lemma_next_slash(s: Seq<char>, i: int, j: int)
    requires
        0 <= i < j <= s.len(),
        forall|k: int| i < k < j ==> s[k] != '/',
        j == s.len() || s[j] == '/',
    ensures
        next_slash(s, i) == j,
    decreases j - i,
{
    if i + 1 < j {
        lemma_next_slash(s, i + 1, j);
    }
}

/// Whether five consecutive segments have 1 to 50 characters each.
fn five_short_segments_exec(segs: &Vec<Vec<char>>) -> (r: bool)
    ensures
        r == five_short_segments(views(segs@)),
{
    let ghost v = views(segs@);
    let n = segs.len();
    let mut a: usize = 0;
    while n >= 5 && a <= n - 5
        invariant
            n == segs.len(),
            a <= n,
            v == views(segs@),
            forall|a2: int| 0 <= a2 < a ==> !#[trigger] short_run_at(v, a2),
        decreases n - a,
    {
        let mut k: usize = a;
        while k < a + 5 && 1 <= segs[k].len() && segs[k].len() <= 50
            invariant
                a <= k <= a + 5,
                a + 5 <= n,
                n == segs.len(),
                v == views(segs@),
                forall|m: int| a <= m < k ==> 1 <= #[trigger] v[m].len() <= 50,
            decreases a + 5 - k,
        {
            assert(v[k as int] == segs@[k as int]@);
            k = k + 1;
        }
        if k == a + 5 {
            assert(short_run_at(v, a as int));
            return true;
        }
        assert(v[k as int] == segs@[k as int]@);
        a = a + 1;
    }
    proof {
        assert forall|a2: int| !#[trigger] short_run_at(v, a2) by {
            if 0 <= a2 && a2 + 5 <= v.len() {
                assert(a2 < a);
            }
        }
    }
    false
}

/// Whether a `(` is followed later by a `)`.
fn has_parenthesised(s: &[char]) -> (r: bool)
    ensures
        r == parenthesised(s@),
{
    let mut i: usize = 0;
    while i < s.len() && s[i] != '('
        invariant
            i <= s.len(),
            forall|k: int| 0 <= k < i ==> s@[k] != '(',
        decreases s.len() - i,
    {
        i = i + 1;
    }
    if i == s.len() {
        return false;
    }
    let mut j: usize = i + 1;
    while j < s.len() && s[j] != ')'
        invariant
            i < j <= s.len(),
            forall|k: int| i < k < j ==> s@[k] != ')',
        decreases s.len() - j,
    {
        j = j + 1;
    }
    if j < s.len() {
        return true;
    }
    proof {
        assert forall|a: int, b: int| 0 <= a < b < s@.len() && s@[a] == '(' implies s@[b] != ')' by {
            assert(a >= i);
        }
    }
    false
}

pub fn chars_eq(a: &[char], b: &[char]) -> (r: bool)
    ensures
        r == (a@ == b@),
{
    if a.len() != b.len() {
        return false;
    }
    let mut i: usize = 0;
    while i < a.len()
        invariant
            a.len() == b.len(),
            forall|k: int| 0 <= k < i ==> a@[k] == b@[k],
        decreases a.len() - i,
    {
        if a[i] != b[i] {
            return false;
        }
        i = i + 1;
    }
    assert(a@ =~= b@);
    true
}

/// Whether some segment occurs three times.
fn repeated_thrice_exec(segs: &Vec<Vec<char>>) -> (r: bool)
    ensures
        r == repeated_thrice(views(segs@)),
{
    let ghost v = views(segs@);
    let n = segs.len();
    let mut a: usize = 0;
    while a < n
        invariant
            n == segs.len(),
            v == views(segs@),
            forall|a2: int, b: int, c: int|
                0 <= a2 < a && a2 < b < c < n ==> !(v[a2] == v[b] && v[c] == v[a2]),
        decreases n - a,
    {
        let mut b: usize = a + 1;
        while b < n && !chars_eq(segs[b].as_slice(), segs[a].as_slice())
            invariant
                a < b <= n,
                n == segs.len(),
                v == views(segs@),
                forall|m: int| a < m < b ==> v[m] != v[a as int],
            decreases n - b,
        {
            b = b + 1;
        }
        if b < n {
            let mut c: usize = b + 1;
            while c < n && !chars_eq(segs[c].as_slice(), segs[a].as_slice())
                invariant
                    a < b < c <= n,
                    n == segs.len(),
                    v == views(segs@),
                    forall|m: int| b < m < c ==> v[m] != v[a as int],
                decreases n - c,
            {
                c = c + 1;
            }
            if c < n {
                assert(v[a as int] == v[b as int] && v[c as int] == v[a as int]);
                return true;
            }
        }
        a = a + 1;
    }
    false
}

impl StandardUrlParser {
    /// Whether the value is script or inline data rather than a link.
    pub fn is_event_handler(&self, url: &str) -> (r: bool)
        ensures
            r == event_handler(url@),
    {
        let u = chars_of(url);
        let s = u.as_slice();
        str_has_prefix(s, "javascript:") || str_has_prefix(s, "data:") || (contains_char(s, ':')
            && contains_char(s, ';')) || has_parenthesised(s)
    }

    /// Whether the value is a template placeholder or a fragment.
    pub fn is_invalid_url_pattern(&self, url: &str) -> (r: bool)
        ensures
            r == invalid_url_pattern(url@),
    {
        let u = chars_of(url);
        let s = u.as_slice();
        str_has_infix(s, "{{") || str_has_infix(s, "}}") || str_has_prefix(s, "#")
    }

    /// The canonical form of the URL.
    pub fn normalize_url(&self, url: &str) -> (r: String)
        ensures
            r@ == canonical(url@),
    {
        canonicalize(url)
    }

    /// Whether the URL looks like a recursive-path trap.
    pub fn is_recursive_url(&self, url: &str) -> (r: bool)
        ensures
            r == recursive_url(url@),
    {
        let u = chars_of(url);
        let s = u.as_slice();
        if str_has_infix(s, "///") {
            return true;
        }
        let low = to_ascii_lower(s);
        if str_has_infix(low.as_slice(), "%2f%2f") {
            return true;
        }
        if str_has_infix(s, "../../../../") {
            return true;
        }
        let segs: Vec<Vec<char>> = match parse_url_parts(url) {
            Some(p) => {
                let path = chars_of(p.path.as_str());
                if path.len() > 0 && path[0] == '/' {
                    let rest = sub_chars(path.as_slice(), 1, path.len());
                    assert(rest@ =~= path@.drop_first());
                    split_on_exec(rest.as_slice(), '/')
                } else {
                    split_on_exec(path.as_slice(), '/')
                }
            },
            None => Vec::new(),
        };
        assert(views(segs@) =~= path_segments(url@));
        if five_short_segments_exec(&segs) {
            return true;
        }
        let r = repeated_thrice_exec(&segs);
        proof {
            let v = path_segments(url@);
            if three_in_a_row(v) {
                let a = choose|a: int|
                    0 <= a && a + 2 < v.len() && #[trigger] v[a] == v[a + 1] && v[a + 1] == v[a + 2];
                assert(0 <= a < a + 1 < a + 2 < v.len() && v[a] == v[a + 1] && v[a + 2] == v[a]);
            }
        }
        r
    }
}

impl UrlParser for StandardUrlParser {
    fn resolve_url(&self, base: &str, href: &str) -> (r: Option<String>) {
        let h = chars_of(href);
        let s = h.as_slice();
        if s.len() == 0 || str_has_prefix(s, "#") || str_has_prefix(s, "javascript:")
            || str_has_prefix(s, "data:") || str_has_prefix(s, "mailto:") || str_has_prefix(
            s,
            "tel:",
        ) || str_has_prefix(s, "ftp:") || str_has_infix(s, "{{") || str_has_infix(s, "}}") {
            return None;
        }
        match join_url(base, href) {
            Some(j) => Some(canonicalize(j.as_str())),
            None => None,
        }
    }
}

/// Whether `host` matches the allowed-domain `pattern`.
pub fn matches_domain_pattern(host: &[char], pattern: &[char]) -> (r: bool)
    ensures
        r == host_matches(host@, pattern@),
{
    if str_has_prefix(pattern, "*.") {
        proof {
            reveal_strlit("*.");
        }
        let mut suffix: Vec<char> = Vec::new();
        let mut i: usize = 2;
        while i < pattern.len()
            invariant
                2 <= i <= pattern.len(),
                suffix@ == pattern@.subrange(2, i as int),
            decreases pattern.len() - i,
        {
            suffix.push(pattern[i]);
            assert(pattern@.subrange(2, i + 1) =~= pattern@.subrange(2, i as int).push(
                pattern@[i as int],
            ));
            i = i + 1;
        }
        assert(suffix@ =~= pattern@.skip(2));
        let mut dotted: Vec<char> = vec!['.'];
        push_all(&mut dotted, suffix.as_slice());
        assert(dotted@ =~= seq!['.'] + pattern@.skip(2));
        chars_eq(host, suffix.as_slice()) || has_suffix(host, dotted.as_slice())
    } else {
        chars_eq(host, pattern)
    }
}

/// Whether the URL is within the allowed domains.
pub fn is_scope(url: &str, allowed_domains: &Vec<String>) -> (r: bool)
    ensures
        r == in_scope(url@, allowed_domains@.map_values(|d: String| d@)),
{
    let ghost doms = allowed_domains@.map_values(|d: String| d@);
    if allowed_domains.len() == 0 {
        return true;
    }
    let host = match parse_url_parts(url) {
        Some(p) => match p.host {
            Some(h) => h,
            None => {
                return false;
            },
        },
        None => {
            return false;
        },
    };
    let hc = chars_of(host.as_str());
    let mut i: usize = 0;
    while i < allowed_domains.len()
        invariant
            hc@ == host_of(url@)->0,
            host_of(url@) is Some,
            doms == allowed_domains@.map_values(|d: String| d@),
            forall|k: int| 0 <= k < i ==> !host_matches(hc@, #[trigger] doms[k]),
        decreases allowed_domains.len() - i,
    {
        let pc = chars_of(allowed_domains[i].as_str());
        if matches_domain_pattern(hc.as_slice(), pc.as_slice()) {
            assert(doms[i as int] == pc@);
            return true;
        }
        i = i + 1;
    }
    false
}

} // verus!
