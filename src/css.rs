//! URLs named by `url(...)` in CSS text.

use vstd::prelude::*;
use crate::text::{occurs_at, matches_at, sub_chars, white_space, is_white_space, chars_of};

verus! {

/// The first index at or after `i` that does not hold white space.
pub open spec fn skip_ws(s: Seq<char>, i: int) -> int
    decreases s.len() - i,
{
    if i < 0 || i >= s.len() || !white_space(s[i]) {
        i
    } else {
        skip_ws(s, i + 1)
    }
}

pub open spec fn is_quote(c: char) -> bool {
    c == '"' || c == '\''
}

/// The end of the run of characters from `i` that are no quote and no `)`.
pub open spec fn run_end(s: Seq<char>, i: int) -> int
    decreases s.len() - i,
{
    if i < 0 || i >= s.len() || is_quote(s[i]) || s[i] == ')' {
        i
    } else {
        run_end(s, i + 1)
    }
}

/// A `url(...)` reference starting at index `i`: `url`, optional white
/// space, `(`, optional white space, an optional quote, a non-empty run of
/// characters that are no quote and no `)` (the captured URL), an optional
/// quote, optional white space, and `)`. Gives the bounds of the capture
/// and the index after the `)`.
pub open spec fn css_url_at(s: Seq<char>, i: int) -> Option<(int, int, int)> {
    if !occurs_at(s, "url"@, i) {
        None
    } else {
        let j = skip_ws(s, i + 3);
        if j >= s.len() || s[j] != '(' {
            None
        } else {
            let j2 = skip_ws(s, j + 1);
            let cs = if j2 < s.len() && is_quote(s[j2]) {
                j2 + 1
            } else {
                j2
            };
            let ce = run_end(s, cs);
            if ce <= cs {
                None
            } else {
                let k = if ce < s.len() && is_quote(s[ce]) {
                    ce + 1
                } else {
                    ce
                };
                let k2 = skip_ws(s, k);
                if k2 < s.len() && s[k2] == ')' {
                    Some((cs, ce, k2 + 1))
                } else {
                    None
                }
            }
        }
    }
}

/// The captured URLs of the `url(...)` references from index `i` on, left
/// to right, each search resuming after the previous reference.
pub open spec fn css_urls_from(s: Seq<char>, i: int) -> Seq<Seq<char>>
    decreases s.len() - i,
{
    if i < 0 || i >= s.len() {
        Seq::<Seq<char>>::empty()
    } else {
        match css_url_at(s, i) {
            Some(m) => if m.2 > i {
                seq![s.subrange(m.0, m.1)] + css_urls_from(s, m.2)
            } else {
                Seq::<Seq<char>>::empty()
            },
            None => css_urls_from(s, i + 1),
        }
    }
}

pub open spec fn css_urls(s: Seq<char>) -> Seq<Seq<char>> {
    css_urls_from(s, 0)
}

pub fn skip_ws_exec(s: &[char], i: usize) -> (r: usize)
    requires
        i <= s.len(),
    ensures
        r == skip_ws(s@, i as int),
        i <= r <= s.len(),
    decreases s.len() - i,
{
    if i >= s.len() || !is_white_space(s[i]) {
        i
    } else {
        skip_ws_exec(s, i + 1)
    }
}

fn run_end_exec(s: &[char], i: usize) -> (r: usize)
    requires
        i <= s.len(),
    ensures
        r == run_end(s@, i as int),
        i <= r <= s.len(),
    decreases s.len() - i,
{
    if i >= s.len() || s[i] == '"' || s[i] == '\'' || s[i] == ')' {
        i
    } else {
        run_end_exec(s, i + 1)
    }
}

fn css_url_at_exec(s: &[char], url_lit: &[char], i: usize) -> (r: Option<(usize, usize, usize)>)
    requires
        url_lit@ == "url"@,
        i < s.len(),
    ensures
        match r {
            Some(m) => css_url_at(s@, i as int) == Some((m.0 as int, m.1 as int, m.2 as int)),
            None => css_url_at(s@, i as int) is None,
        },
{
    if !matches_at(s, url_lit, i) {
        return None;
    }
    proof {
        reveal_strlit("url");
    }
    let j = skip_ws_exec(s, i + 3);
    if j >= s.len() || s[j] != '(' {
        return None;
    }
    let j2 = skip_ws_exec(s, j + 1);
    let cs = if j2 < s.len() && (s[j2] == '"' || s[j2] == '\'') {
        j2 + 1
    } else {
        j2
    };
    let ce = run_end_exec(s, cs);
    if ce <= cs {
        return None;
    }
    let k = if ce < s.len() && (s[ce] == '"' || s[ce] == '\'') {
        ce + 1
    } else {
        ce
    };
    let k2 = skip_ws_exec(s, k);
    if k2 < s.len() && s[k2] == ')' {
        Some((cs, ce, k2 + 1))
    } else {
        None
    }
}

/// The URLs captured by the `url(...)` references of the CSS text.
pub fn extract_css_urls(css: &str) -> (r: Vec<Vec<char>>)
    ensures
        crate::urls::views(r@) == css_urls(css@),
{
    let s = chars_of(css);
    let url_lit = chars_of("url");
    let mut out: Vec<Vec<char>> = Vec::new();
    let mut i: usize = 0;
    while i < s.len()
        invariant
            s@ == css@,
            url_lit@ == "url"@,
            i <= s.len(),
            crate::urls::views(out@) + css_urls_from(s@, i as int) == css_urls(css@),
        decreases s.len() - i,
    {
        match css_url_at_exec(s.as_slice(), url_lit.as_slice(), i) {
            Some(m) => {
                let (cs, ce, end) = m;
                if end <= i {
                    assert(css_urls_from(s@, i as int) =~= Seq::<Seq<char>>::empty());
                    assert(crate::urls::views(out@) + Seq::<Seq<char>>::empty() =~= crate::urls::views(out@));
                    return out;
                }
                proof {
                    assert(cs <= ce);
                }
                let cap = sub_chars(s.as_slice(), cs, ce);
                let ghost before = crate::urls::views(out@);
                out.push(cap);
                assert(crate::urls::views(out@) =~= before.push(s@.subrange(cs as int, ce as int)));
                assert(crate::urls::views(out@) + css_urls_from(s@, end as int) =~= before + (seq![
                    s@.subrange(cs as int, ce as int),
                ] + css_urls_from(s@, end as int)));
                i = if end <= s.len() { end } else { s.len() };
                proof {
                    if end > s.len() {
                        assert(css_urls_from(s@, end as int) =~= Seq::<Seq<char>>::empty());
                    }
                }
            },
            None => {
                i = i + 1;
            },
        }
    }
    assert(css_urls_from(s@, i as int) =~= Seq::<Seq<char>>::empty());
    assert(crate::urls::views(out@) + Seq::<Seq<char>>::empty() =~= crate::urls::views(out@));
    out
}

} // verus!
