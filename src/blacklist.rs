//! URLs that the crawl never follows: exact URLs, host suffixes, and
//! regular expressions.

use vstd::prelude::*;
use crate::text::{chars_of, ends_with, has_suffix};
use crate::urls::{host_of, parse_url_parts};
use crate::engine::str_views;

verus! {

/// What the `regex` crate answers for `pattern` on `text`: `None` where the
/// pattern does not compile, else whether it matches somewhere in the text.
pub uninterp spec fn regex_match(pattern: Seq<char>, text: Seq<char>) -> Option<bool>;

/// Relies on `regex::Regex::new` and `Regex::is_match`.
#[verifier::external_body]
fn pattern_matches(pattern: &str, text: &str) -> (r: Option<bool>)
    ensures
        r == regex_match(pattern@, text@),
{
    match regex::Regex::new(pattern) {
        Ok(re) => Some(re.is_match(text)),
        Err(_) => None,
    }
}

/// The blacklist: three lists, any member of which excludes a URL.
pub struct Blacklist {
    pub domains: Vec<String>,
    pub urls: Vec<String>,
    pub patterns: Vec<String>,
}

/// The URL is one of the exact URLs, its host ends with one of the domain
/// suffixes, or one of the patterns compiles and matches it.
pub open spec fn blacklisted(
    domains: Seq<Seq<char>>,
    urls: Seq<Seq<char>>,
    patterns: Seq<Seq<char>>,
    u: Seq<char>,
) -> bool {
    (exists|i: int| 0 <= i < urls.len() && #[trigger] urls[i] == u) || (match host_of(u) {
        Some(h) => exists|i: int| 0 <= i < domains.len() && ends_with(h, #[trigger] domains[i]),
        None => false,
    }) || (exists|i: int|
        0 <= i < patterns.len() && regex_match(#[trigger] patterns[i], u) == Some(true))
}

impl Blacklist {
    pub open spec fn matches(&self, u: Seq<char>) -> bool {
        blacklisted(str_views(self.domains@), str_views(self.urls@), str_views(self.patterns@), u)
    }

    /// An empty blacklist.
    pub fn new() -> (r: Self)
        ensures
            r.domains@.len() == 0,
            r.urls@.len() == 0,
            r.patterns@.len() == 0,
    {
        Blacklist { domains: Vec::new(), urls: Vec::new(), patterns: Vec::new() }
    }

    /// A blacklist of the given lists.
    pub fn with_data(domains: Vec<String>, urls: Vec<String>, patterns: Vec<String>) -> (r: Self)
        ensures
            r.domains == domains,
            r.urls == urls,
            r.patterns == patterns,
    {
        Blacklist { domains, urls, patterns }
    }

    /// Whether the URL is excluded. A pattern that does not compile never
    /// matches.
    pub fn is_blacklisted(&self, url: &str) -> (r: bool)
        ensures
            r == self.matches(url@),
    {
        let ghost urls = str_views(self.urls@);
        let ghost domains = str_views(self.domains@);
        let ghost patterns = str_views(self.patterns@);
        let u = url.to_string();
        let mut i: usize = 0;
        while i < self.urls.len()
            invariant
                u@ == url@,
                urls == str_views(self.urls@),
                forall|k: int| 0 <= k < i ==> #[trigger] urls[k] != url@,
            decreases self.urls.len() - i,
        {
            if self.urls[i] == u {
                assert(urls[i as int] == url@);
                return true;
            }
            i = i + 1;
        }
        match parse_url_parts(url) {
            Some(p) => {
                match p.host {
                    Some(h) => {
                        let hc = chars_of(h.as_str());
                        let mut j: usize = 0;
                        while j < self.domains.len()
                            invariant
                                hc@ == host_of(url@)->0,
                                host_of(url@) is Some,
                                domains == str_views(self.domains@),
                                forall|k: int| 0 <= k < j ==> !ends_with(hc@, #[trigger] domains[k]),
                            decreases self.domains.len() - j,
                        {
                            let d = chars_of(self.domains[j].as_str());
                            if has_suffix(hc.as_slice(), d.as_slice()) {
                                assert(domains[j as int] == d@);
                                return true;
                            }
                            j = j + 1;
                        }
                    },
                    None => {},
                }
            },
            None => {},
        }
        let mut m: usize = 0;
        while m < self.patterns.len()
            invariant
                patterns == str_views(self.patterns@),
                forall|k: int| 0 <= k < m ==> regex_match(#[trigger] patterns[k], url@) != Some(true),
            decreases self.patterns.len() - m,
        {
            if pattern_matches(self.patterns[m].as_str(), url) == Some(true) {
                assert(patterns[m as int] == self.patterns@[m as int]@);
                return true;
            }
            m = m + 1;
        }
        false
    }
}

} // verus!
