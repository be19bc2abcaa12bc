//! URL parsing through the `url` crate, and the canonical form of a URL.

use vstd::prelude::*;
use crate::text::{sub_chars, chars_of, string_of, push_all, contains};

verus! {

/// The components that the `url` crate reads from a string: scheme, host,
/// port (absent when it is the scheme's default), path and query, or `None`
/// where the string does not parse as an absolute URL.
pub uninterp spec fn url_components(s: Seq<char>) -> Option<
    (Seq<char>, Option<Seq<char>>, Option<u16>, Seq<char>, Option<Seq<char>>),
>;

/// What `Url::join` gives for `href` against `base` once `base` is parsed,
/// serialized; `None` where either step fails.
pub uninterp spec fn joined_url(base: Seq<char>, href: Seq<char>) -> Option<Seq<char>>;

/// What the `url` crate serializes for `u` once parsed, with its fragment
/// removed and its path and query set to the given ones; `None` where `u`
/// does not parse.
pub uninterp spec fn url_with_path_query(
    u: Seq<char>,
    path: Seq<char>,
    query: Option<Seq<char>>,
) -> Option<Seq<char>>;

/// The components of a parsed URL, as plain strings.
pub struct UrlParts {
    pub scheme: String,
    pub host: Option<String>,
    pub port: Option<u16>,
    pub path: String,
    pub query: Option<String>,
}

pub open spec fn opt_view(o: Option<String>) -> Option<Seq<char>> {
    match o {
        Some(s) => Some(s@),
        None => None,
    }
}

impl UrlParts {
    pub open spec fn tuple(&self) -> (
        Seq<char>,
        Option<Seq<char>>,
        Option<u16>,
        Seq<char>,
        Option<Seq<char>>,
    ) {
        (self.scheme@, opt_view(self.host), self.port, self.path@, opt_view(self.query))
    }
}

/// Relies on `url::Url::parse` and its accessors `scheme`, `host_str`,
/// `port`, `path` and `query`.
#[verifier::external_body]
pub(crate) fn parse_url_parts(s: &str) -> (r: Option<UrlParts>)
    ensures
        r is None <==> url_components(s@) is None,
        r is Some ==> url_components(s@) == Some(r->0.tuple()),
{
    match ::url::Url::parse(s) {
        Ok(u) => Some(UrlParts {
            scheme: u.scheme().to_string(),
            host: u.host_str().map(|h| h.to_string()),
            port: u.port(),
            path: u.path().to_string(),
            query: u.query().map(|q| q.to_string()),
        }),
        Err(_) => None,
    }
}

/// Relies on `url::Url::parse` of `base` followed by `Url::join` of `href`,
/// serialized by `Url::to_string`.
#[verifier::external_body]
pub(crate) fn join_url(base: &str, href: &str) -> (r: Option<String>)
    ensures
        opt_view(r) == joined_url(base@, href@),
{
    match ::url::Url::parse(base) {
        Ok(b) => match b.join(href) {
            Ok(u) => Some(u.to_string()),
            Err(_) => None,
        },
        Err(_) => None,
    }
}

/// Relies on `url::Url::parse`, then `Url::set_fragment`, `Url::set_path`,
/// `Url::set_query` and the serialization `Url::to_string`.
#[verifier::external_body]
pub(crate) fn set_path_query(u: &str, path: &str, query: &Option<String>) -> (r: Option<String>)
    ensures
        opt_view(r) == url_with_path_query(u@, path@, opt_view(*query)),
{
    match ::url::Url::parse(u) {
        Ok(mut x) => {
            x.set_fragment(None);
            x.set_path(path);
            x.set_query(query.as_deref());
            Some(x.to_string())
        },
        Err(_) => None,
    }
}

/// The host of the URL `u`, where it parses and has one.
pub fn url_host(u: &str) -> (r: Option<String>)
    ensures
        opt_view(r) == host_of(u@),
{
    match parse_url_parts(u) {
        Some(p) => p.host,
        None => None,
    }
}

/// The host of a URL, where it parses and has one.
pub open spec fn host_of(u: Seq<char>) -> Option<Seq<char>> {
    match url_components(u) {
        Some(c) => c.1,
        None => None,
    }
}

/// The path of a URL where it parses; the string itself where it does not.
pub open spec fn path_or_self(u: Seq<char>) -> Seq<char> {
    match url_components(u) {
        Some(c) => c.3,
        None => u,
    }
}

// ---------------------------------------------------------------------------
// Canonical form

/// The path with each run of slashes replaced by one slash.
pub open spec fn collapse_slashes(p: Seq<char>) -> Seq<char>
    decreases p.len(),
{
    if p.len() == 0 {
        p
    } else {
        let c = collapse_slashes(p.drop_last());
        if p.last() == '/' && c.len() > 0 && c.last() == '/' {
            c
        } else {
            c.push(p.last())
        }
    }
}

/// The path without its trailing slash, unless it is the root `/`.
pub open spec fn strip_trailing_slash(p: Seq<char>) -> Seq<char> {
    if p.len() > 1 && p.last() == '/' {
        p.drop_last()
    } else {
        p
    }
}

pub open spec fn canonical_path(p: Seq<char>) -> Seq<char> {
    strip_trailing_slash(collapse_slashes(p))
}

/// The pieces of `s` between occurrences of `sep` (one piece more than there
/// are separators).
pub open spec fn split_on(s: Seq<char>, sep: char) -> Seq<Seq<char>>
    decreases s.len(),
{
    if s.len() == 0 {
        seq![Seq::<char>::empty()]
    } else {
        let prev = split_on(s.drop_last(), sep);
        if s.last() == sep {
            prev.push(Seq::<char>::empty())
        } else {
            prev.update(prev.len() - 1, prev.last().push(s.last()))
        }
    }
}

/// The pieces joined with `sep` between each two.
pub open spec fn join_with(ps: Seq<Seq<char>>, sep: char) -> Seq<char>
    decreases ps.len(),
{
    if ps.len() == 0 {
        Seq::<char>::empty()
    } else if ps.len() == 1 {
        ps[0]
    } else {
        join_with(ps.drop_last(), sep).push(sep) + ps.last()
    }
}

/// The key of a query parameter: what precedes its first `=`.
pub open spec fn param_key(p: Seq<char>) -> Seq<char>
    decreases p.len(),
{
    if p.len() == 0 || p[0] == '=' {
        Seq::<char>::empty()
    } else {
        seq![p[0]] + param_key(p.drop_first())
    }
}

/// Lexicographic order of strings by code point, as `str`'s `Ord` orders them.
pub open spec fn lex_le(a: Seq<char>, b: Seq<char>) -> bool
    decreases a.len(),
{
    if a.len() == 0 {
        true
    } else if b.len() == 0 {
        false
    } else if a[0] != b[0] {
        a[0] < b[0]
    } else {
        lex_le(a.drop_first(), b.drop_first())
    }
}

/// `x` inserted into `s` after every element whose key is at most `x`'s,
/// scanning from the end: one step of a stable insertion sort.
pub open spec fn insert_by_key(s: Seq<Seq<char>>, x: Seq<char>) -> Seq<Seq<char>>
    decreases s.len(),
{
    if s.len() == 0 {
        seq![x]
    } else if lex_le(param_key(s.last()), param_key(x)) {
        s.push(x)
    } else {
        insert_by_key(s.drop_last(), x).push(s.last())
    }
}

/// The parameters stably sorted by key.
pub open spec fn sort_by_key(s: Seq<Seq<char>>) -> Seq<Seq<char>>
    decreases s.len(),
{
    if s.len() == 0 {
        s
    } else {
        insert_by_key(sort_by_key(s.drop_last()), s.last())
    }
}

pub open spec fn canonical_query(q: Seq<char>) -> Seq<char> {
    join_with(sort_by_key(split_on(q, '&')), '&')
}

/// The query canonicalized, where there is one.
pub open spec fn canonical_query_opt(q: Option<Seq<char>>) -> Option<Seq<char>> {
    match q {
        Some(q) => Some(canonical_query(q)),
        None => None,
    }
}

/// The canonical form of a URL: serialized by the `url` crate with the
/// fragment dropped, the canonical path and the canonical query. A string
/// that does not parse is returned as it is.
pub open spec fn canonical(u: Seq<char>) -> Seq<char> {
    match url_components(u) {
        Some(c) => match url_with_path_query(u, canonical_path(c.3), canonical_query_opt(c.4)) {
            Some(w) => w,
            None => u,
        },
        None => u,
    }
}

pub fn collapse_slashes_exec(p: &[char]) -> (r: Vec<char>)
    ensures
        r@ == collapse_slashes(p@),
{
    let mut out: Vec<char> = Vec::new();
    let mut i: usize = 0;
    while i < p.len()
        invariant
            i <= p.len(),
            out@ == collapse_slashes(p@.take(i as int)),
        decreases p.len() - i,
    {
        let c = p[i];
        proof {
            assert(p@.take(i + 1).drop_last() =~= p@.take(i as int));
        }
        if !(c == '/' && out.len() > 0 && out[out.len() - 1] == '/') {
            out.push(c);
        }
        i = i + 1;
    }
    assert(p@.take(p.len() as int) =~= p@);
    out
}

pub fn canonical_path_exec(p: &[char]) -> (r: Vec<char>)
    ensures
        r@ == canonical_path(p@),
{
    let mut c = collapse_slashes_exec(p);
    if c.len() > 1 && c[c.len() - 1] == '/' {
        c.pop();
    }
    c
}

pub open spec fn views(v: Seq<Vec<char>>) -> Seq<Seq<char>> {
    v.map_values(|x: Vec<char>| x@)
}

pub fn split_on_exec(s: &[char], sep: char) -> (r: Vec<Vec<char>>)
    ensures
        views(r@) == split_on(s@, sep),
{
    let mut parts: Vec<Vec<char>> = Vec::new();
    let mut cur: Vec<char> = Vec::new();
    let mut i: usize = 0;
    while i < s.len()
        invariant
            i <= s.len(),
            views(parts@).push(cur@) == split_on(s@.take(i as int), sep),
        decreases s.len() - i,
    {
        let c = s[i];
        proof {
            assert(s@.take(i + 1).drop_last() =~= s@.take(i as int));
        }
        if c == sep {
            let ghost before = views(parts@);
            parts.push(cur);
            cur = Vec::new();
            assert(views(parts@) =~= before.push(views(parts@).last()));
            assert(views(parts@).push(cur@) =~= split_on(s@.take(i + 1), sep));
        } else {
            let ghost before = views(parts@).push(cur@);
            cur.push(c);
            assert(views(parts@).push(cur@) =~= before.update(
                before.len() - 1,
                before.last().push(c),
            ));
        }
        i = i + 1;
    }
    assert(s@.take(s.len() as int) =~= s@);
    parts.push(cur);
    assert(views(parts@) =~= split_on(s@, sep));
    parts
}


pub fn param_key_exec(p: &[char]) -> (r: Vec<char>)
    ensures
        r@ == param_key(p@),
{
    let mut i: usize = 0;
    while i < p.len() && p[i] != '='
        invariant
            i <= p.len(),
            forall|k: int| 0 <= k < i ==> p@[k] != '=',
        decreases p.len() - i,
    {
        i = i + 1;
    }
    proof {
        lemma_param_key_prefix(p@, i as int);
    }
    sub_chars(p, 0, i)
}

proof fn lemma_param_key_prefix(p: Seq<char>, i: int)
    requires
        0 <= i <= p.len(),
        forall|k: int| 0 <= k < i ==> p[k] != '=',
        i == p.len() || p[i] == '=',
    ensures
        param_key(p) == p.take(i),
    decreases p.len(),
{
    if p.len() == 0 || p[0] == '=' {
        assert(p.take(i) =~= Seq::<char>::empty());
    } else {
        lemma_param_key_prefix(p.drop_first(), i - 1);
        assert(p.take(i) =~= seq![p[0]] + p.drop_first().take(i - 1));
    }
}

pub fn lex_le_exec(a: &[char], b: &[char]) -> (r: bool)
    ensures
        r == lex_le(a@, b@),
{
    let mut i: usize = 0;
    assert(a@.skip(0) =~= a@ && b@.skip(0) =~= b@);
    while i < a.len() && i < b.len() && a[i] == b[i]
        invariant
            i <= a.len(),
            i <= b.len(),
            lex_le(a@, b@) == lex_le(a@.skip(i as int), b@.skip(i as int)),
        decreases a.len() - i,
    {
        proof {
            assert(a@.skip(i + 1) =~= a@.skip(i as int).drop_first());
            assert(b@.skip(i + 1) =~= b@.skip(i as int).drop_first());
        }
        i = i + 1;
    }
    if i == a.len() {
        true
    } else if i == b.len() {
        false
    } else {
        a[i] < b[i]
    }
}

proof fn lemma_insert_at(s: Seq<Seq<char>>, x: Seq<char>, i: int)
    requires
        0 <= i <= s.len(),
        forall|k: int| i <= k < s.len() ==> !lex_le(param_key(#[trigger] s[k]), param_key(x)),
        i == 0 || lex_le(param_key(s[i - 1]), param_key(x)),
    ensures
        insert_by_key(s, x) == s.take(i).push(x) + s.skip(i),
    decreases s.len(),
{
    if s.len() == 0 {
        assert(s.take(i).push(x) + s.skip(i) =~= seq![x]);
    } else if i == s.len() {
        assert(s.take(i).push(x) + s.skip(i) =~= s.push(x));
    } else {
        lemma_insert_at(s.drop_last(), x, i);
        assert(s.take(i).push(x) + s.skip(i) =~= (s.drop_last().take(i).push(x) + s.drop_last().skip(
            i,
        )).push(s.last()));
    }
}

/// Inserts `x` into `s` as one step of the stable insertion sort by key.
fn insert_by_key_exec(s: &mut Vec<Vec<char>>, x: Vec<char>)
    ensures
        views(final(s)@) == insert_by_key(views(old(s)@), x@),
{
    let xk = param_key_exec(x.as_slice());
    let mut i: usize = s.len();
    while i > 0 && !lex_le_exec(param_key_exec(s[i - 1].as_slice()).as_slice(), xk.as_slice())
        invariant
            i <= s.len(),
            xk@ == param_key(x@),
            forall|k: int|
                i <= k < s.len() ==> !lex_le(param_key(#[trigger] views(s@)[k]), param_key(x@)),
        decreases i,
    {
        i = i - 1;
    }
    proof {
        lemma_insert_at(views(s@), x@, i as int);
    }
    let ghost before = views(s@);
    s.insert(i, x);
    assert(views(s@) =~= before.take(i as int).push(x@) + before.skip(i as int));
}

pub fn sort_by_key_exec(ps: Vec<Vec<char>>) -> (r: Vec<Vec<char>>)
    ensures
        views(r@) == sort_by_key(views(ps@)),
{
    let mut out: Vec<Vec<char>> = Vec::new();
    let mut i: usize = 0;
    while i < ps.len()
        invariant
            i <= ps.len(),
            views(out@) == sort_by_key(views(ps@).take(i as int)),
        decreases ps.len() - i,
    {
        let x = ps[i].clone();
        proof {
            assert(views(ps@).take(i + 1).drop_last() =~= views(ps@).take(i as int));
        }
        insert_by_key_exec(&mut out, x);
        i = i + 1;
    }
    assert(views(ps@).take(ps.len() as int) =~= views(ps@));
    out
}

pub fn join_with_exec(ps: &Vec<Vec<char>>, sep: char) -> (r: Vec<char>)
    ensures
        r@ == join_with(views(ps@), sep),
{
    let mut out: Vec<char> = Vec::new();
    let mut i: usize = 0;
    while i < ps.len()
        invariant
            i <= ps.len(),
            out@ == join_with(views(ps@).take(i as int), sep),
        decreases ps.len() - i,
    {
        proof {
            assert(views(ps@).take(i + 1).drop_last() =~= views(ps@).take(i as int));
        }
        if i > 0 {
            out.push(sep);
        }
        push_all(&mut out, ps[i].as_slice());
        i = i + 1;
    }
    assert(views(ps@).take(ps.len() as int) =~= views(ps@));
    out
}

pub fn canonical_query_exec(q: &[char]) -> (r: Vec<char>)
    ensures
        r@ == canonical_query(q@),
{
    let parts = split_on_exec(q, '&');
    let sorted = sort_by_key_exec(parts);
    join_with_exec(&sorted, '&')
}

/// The canonical form of `u`: parsed, fragment dropped, repeated slashes in
/// the path collapsed, a trailing slash stripped except on the root, and the
/// query parameters sorted by key. A string that does not parse is returned
/// as it is.
pub fn canonicalize(u: &str) -> (r: String)
    ensures
        r@ == canonical(u@),
{
    match parse_url_parts(u) {
        Some(p) => {
            let path = canonical_path_exec(chars_of(p.path.as_str()).as_slice());
            let query: Option<String> = match &p.query {
                Some(q) => {
                    let cq = canonical_query_exec(chars_of(q.as_str()).as_slice());
                    Some(string_of(cq.as_slice()))
                },
                None => None,
            };
            let path_s = string_of(path.as_slice());
            match set_path_query(u, path_s.as_str(), &query) {
                Some(w) => w,
                None => u.to_string(),
            }
        },
        None => u.to_string(),
    }
}


// ---------------------------------------------------------------------------
// Idempotence of the canonical form

pub open spec fn no_double_slash(p: Seq<char>) -> bool {
    forall|i: int| 0 <= i < p.len() - 1 ==> !(#[trigger] p[i] == '/' && p[i + 1] == '/')
}

proof fn lemma_collapse_no_double(p: Seq<char>)
    ensures
        no_double_slash(collapse_slashes(p)),
    decreases p.len(),
{
    if p.len() > 0 {
        lemma_collapse_no_double(p.drop_last());
        let c = collapse_slashes(p.drop_last());
        let r = collapse_slashes(p);
        assert forall|i: int| 0 <= i < r.len() - 1 implies !(#[trigger] r[i] == '/' && r[i + 1]
            == '/') by {
            if r.len() == c.len() + 1 && i == c.len() - 1 {
                assert(r[i] == c.last());
            } else {
                assert(r[i] == c[i] && r[i + 1] == c[i + 1]);
            }
        }
    }
}

proof fn lemma_prefix_no_double(q: Seq<char>, n: int)
    requires
        no_double_slash(q),
        0 <= n <= q.len(),
    ensures
        no_double_slash(q.take(n)),
{
    let d = q.take(n);
    assert forall|i: int| 0 <= i < d.len() - 1 implies !(#[trigger] d[i] == '/' && d[i + 1]
        == '/') by {
        assert(d[i] == q[i] && d[i + 1] == q[i + 1]);
    }
}

proof fn lemma_collapse_fixed(q: Seq<char>)
    requires
        no_double_slash(q),
    ensures
        collapse_slashes(q) == q,
    decreases q.len(),
{
    if q.len() > 0 {
        let d = q.drop_last();
        lemma_prefix_no_double(q, q.len() - 1);
        assert(d =~= q.take(q.len() - 1));
        lemma_collapse_fixed(d);
        if q.last() == '/' && d.len() > 0 && d.last() == '/' {
            assert(q[q.len() - 2] == '/' && q[q.len() - 1] == '/');
        }
        assert(d.push(q.last()) =~= q);
    }
}

/// Canonicalizing a canonical path again changes nothing.
pub proof fn lemma_canonical_path_idempotent(p: Seq<char>)
    ensures
        canonical_path(canonical_path(p)) == canonical_path(p),
{
    let c = collapse_slashes(p);
    lemma_collapse_no_double(p);
    let s = strip_trailing_slash(c);
    if c.len() > 1 && c.last() == '/' {
        lemma_prefix_no_double(c, c.len() - 1);
        assert(s =~= c.take(c.len() - 1));
        if s.len() > 1 && s.last() == '/' {
            assert(c[c.len() - 2] == '/' && c[c.len() - 1] == '/');
        }
    }
    lemma_collapse_fixed(s);
}

/// No piece of `split_on` holds the separator, and there is at least one.
pub proof fn lemma_split_pieces(s: Seq<char>, sep: char)
    ensures
        split_on(s, sep).len() >= 1,
        forall|i: int, j: int|
            0 <= i < split_on(s, sep).len() && 0 <= j < split_on(s, sep)[i].len()
                ==> #[trigger] split_on(s, sep)[i][j] != sep,
    decreases s.len(),
{
    if s.len() > 0 {
        lemma_split_pieces(s.drop_last(), sep);
        let prev = split_on(s.drop_last(), sep);
        let r = split_on(s, sep);
        assert forall|i: int, j: int| 0 <= i < r.len() && 0 <= j < r[i].len() implies #[trigger] r[i][j]
            != sep by {
            if s.last() != sep && i == prev.len() - 1 {
                if j < prev.last().len() {
                    assert(r[i][j] == prev[i][j]);
                }
            } else if i < prev.len() {
                assert(r[i] == prev[i]);
            }
        }
    }
}

proof fn lemma_split_single(b: Seq<char>, sep: char)
    requires
        forall|j: int| 0 <= j < b.len() ==> b[j] != sep,
    ensures
        split_on(b, sep) == seq![b],
    decreases b.len(),
{
    if b.len() > 0 {
        lemma_split_single(b.drop_last(), sep);
        assert(b.drop_last().push(b.last()) =~= b);
        assert(seq![b.drop_last()].update(0, b.drop_last().push(b.last())) =~= seq![b]);
    } else {
        assert(b =~= Seq::<char>::empty());
    }
}

proof fn lemma_split_append(a: Seq<char>, b: Seq<char>, sep: char)
    requires
        forall|j: int| 0 <= j < b.len() ==> b[j] != sep,
    ensures
        split_on(a + seq![sep] + b, sep) == split_on(a, sep).push(b),
    decreases b.len(),
{
    let s = a + seq![sep] + b;
    if b.len() == 0 {
        assert(s.drop_last() =~= a);
        assert(b =~= Seq::<char>::empty());
    } else {
        lemma_split_append(a, b.drop_last(), sep);
        assert(s.drop_last() =~= a + seq![sep] + b.drop_last());
        assert(b.drop_last().push(b.last()) =~= b);
        assert(split_on(a, sep).push(b.drop_last()).update(
            split_on(a, sep).len() as int,
            b.drop_last().push(b.last()),
        ) =~= split_on(a, sep).push(b));
    }
}

/// Splitting the join of pieces that hold no separator gives the pieces.
pub proof fn lemma_split_join(ps: Seq<Seq<char>>, sep: char)
    requires
        ps.len() >= 1,
        forall|i: int, j: int| 0 <= i < ps.len() && 0 <= j < ps[i].len() ==> #[trigger] ps[i][j] != sep,
    ensures
        split_on(join_with(ps, sep), sep) == ps,
    decreases ps.len(),
{
    if ps.len() == 1 {
        assert forall|j: int| 0 <= j < ps[0].len() implies ps[0][j] != sep by {
            assert(ps[0][j] == ps[0][j]);
        }
        lemma_split_single(ps[0], sep);
        assert(seq![ps[0]] =~= ps);
    } else {
        let d = ps.drop_last();
        assert forall|i: int, j: int| 0 <= i < d.len() && 0 <= j < d[i].len() implies #[trigger] d[i][j]
            != sep by {
            assert(d[i] == ps[i]);
        }
        lemma_split_join(d, sep);
        assert forall|j: int| 0 <= j < ps.last().len() implies ps.last()[j] != sep by {
            assert(ps.last() == ps[ps.len() - 1]);
        }
        lemma_split_append(join_with(d, sep), ps.last(), sep);
        assert(join_with(d, sep).push(sep) + ps.last() =~= join_with(d, sep) + seq![sep] + ps.last());
        assert(d.push(ps.last()) =~= ps);
    }
}

proof fn lemma_lex_total(a: Seq<char>, b: Seq<char>)
    ensures
        lex_le(a, b) || lex_le(b, a),
    decreases a.len(),
{
    if a.len() > 0 && b.len() > 0 && a[0] == b[0] {
        lemma_lex_total(a.drop_first(), b.drop_first());
    }
}

pub open spec fn sorted_by_key(s: Seq<Seq<char>>) -> bool {
    forall|i: int| 0 <= i < s.len() - 1 ==> lex_le(param_key(#[trigger] s[i]), param_key(s[i + 1]))
}

proof fn lemma_insert_props(s: Seq<Seq<char>>, x: Seq<char>)
    requires
        sorted_by_key(s),
    ensures
        sorted_by_key(insert_by_key(s, x)),
        insert_by_key(s, x).len() == s.len() + 1,
        insert_by_key(s, x).last() == x || (s.len() > 0 && insert_by_key(s, x).last() == s.last()),
        forall|k: int|
            0 <= k < insert_by_key(s, x).len() ==> #[trigger] insert_by_key(s, x)[k] == x
                || s.contains(insert_by_key(s, x)[k]),
    decreases s.len(),
{
    let r = insert_by_key(s, x);
    if s.len() == 0 {
    } else if lex_le(param_key(s.last()), param_key(x)) {
        assert forall|i: int| 0 <= i < r.len() - 1 implies lex_le(param_key(#[trigger] r[i]), param_key(r[i + 1])) by {
            if i < s.len() - 1 {
                assert(r[i] == s[i] && r[i + 1] == s[i + 1]);
            }
        }
        assert forall|k: int| 0 <= k < r.len() implies #[trigger] r[k] == x || s.contains(r[k]) by {
            if k < s.len() {
                assert(r[k] == s[k]);
            }
        }
    } else {
        let d = s.drop_last();
        assert(sorted_by_key(d)) by {
            assert forall|i: int| 0 <= i < d.len() - 1 implies lex_le(param_key(#[trigger] d[i]), param_key(d[i + 1])) by {
                assert(d[i] == s[i] && d[i + 1] == s[i + 1]);
            }
        }
        lemma_insert_props(d, x);
        let m = insert_by_key(d, x);
        lemma_lex_total(param_key(s.last()), param_key(x));
        if m.last() != x {
            assert(s[s.len() - 2] == d.last());
        }
        assert forall|i: int| 0 <= i < r.len() - 1 implies lex_le(param_key(#[trigger] r[i]), param_key(r[i + 1])) by {
            if i < m.len() - 1 {
                assert(r[i] == m[i] && r[i + 1] == m[i + 1]);
            } else {
                assert(r[i] == m.last());
            }
        }
        assert forall|k: int| 0 <= k < r.len() implies #[trigger] r[k] == x || s.contains(r[k]) by {
            if k < m.len() {
                assert(r[k] == m[k]);
                if m[k] != x {
                    let w = choose|w: int| 0 <= w < d.len() && d[w] == m[k];
                    assert(s[w] == d[w]);
                }
            } else {
                assert(r[k] == s[s.len() - 1]);
            }
        }
    }
}

proof fn lemma_sort_props(s: Seq<Seq<char>>)
    ensures
        sorted_by_key(sort_by_key(s)),
        sort_by_key(s).len() == s.len(),
        forall|k: int| 0 <= k < sort_by_key(s).len() ==> s.contains(#[trigger] sort_by_key(s)[k]),
    decreases s.len(),
{
    if s.len() > 0 {
        let d = s.drop_last();
        lemma_sort_props(d);
        lemma_insert_props(sort_by_key(d), s.last());
        let r = sort_by_key(s);
        assert forall|k: int| 0 <= k < r.len() implies s.contains(#[trigger] r[k]) by {
            if r[k] != s.last() {
                let w = choose|w: int| 0 <= w < sort_by_key(d).len() && sort_by_key(d)[w] == r[k];
                assert(d.contains(sort_by_key(d)[w]));
                let v = choose|v: int| 0 <= v < d.len() && d[v] == sort_by_key(d)[w];
                assert(s[v] == d[v]);
            } else {
                assert(s[s.len() - 1] == s.last());
            }
        }
    }
}

proof fn lemma_sort_fixed(s: Seq<Seq<char>>)
    requires
        sorted_by_key(s),
    ensures
        sort_by_key(s) == s,
    decreases s.len(),
{
    if s.len() > 0 {
        let d = s.drop_last();
        assert(sorted_by_key(d)) by {
            assert forall|i: int| 0 <= i < d.len() - 1 implies lex_le(param_key(#[trigger] d[i]), param_key(d[i + 1])) by {
                assert(d[i] == s[i] && d[i + 1] == s[i + 1]);
            }
        }
        lemma_sort_fixed(d);
        if d.len() > 0 {
            assert(d.last() == s[s.len() - 2]);
        }
        assert(d.push(s.last()) =~= s);
    }
}

/// Canonicalizing a canonical query again changes nothing.
pub proof fn lemma_canonical_query_idempotent(q: Seq<char>)
    ensures
        canonical_query(canonical_query(q)) == canonical_query(q),
{
    let parts = split_on(q, '&');
    lemma_split_pieces(q, '&');
    let sorted = sort_by_key(parts);
    lemma_sort_props(parts);
    assert forall|i: int, j: int| 0 <= i < sorted.len() && 0 <= j < sorted[i].len() implies #[trigger] sorted[i][j]
        != '&' by {
        let w = choose|w: int| 0 <= w < parts.len() && parts[w] == sorted[i];
        assert(parts[w][j] != '&');
    }
    lemma_split_join(sorted, '&');
    lemma_sort_fixed(sorted);
}

/// The path that the `url` crate reads from `u`, where it parses.
pub open spec fn parsed_path(u: Seq<char>) -> Option<Seq<char>> {
    match url_components(u) {
        Some(c) => Some(c.3),
        None => None,
    }
}

/// The query that the `url` crate reads from `u`, where it parses.
pub open spec fn parsed_query(u: Seq<char>) -> Option<Option<Seq<char>>> {
    match url_components(u) {
        Some(c) => Some(c.4),
        None => None,
    }
}

/// Idempotent canonicalization, for every URL that the `url` crate reads
/// back as it wrote it: where parsing the canonical form gives the canonical
/// path and query that were set, and serializing it again with its own
/// path and query gives it back, the canonical form of the canonical form
/// is the canonical form.
pub proof fn lemma_canonical_idempotent(u: Seq<char>)
    requires
        url_components(u) is Some && url_with_path_query(
            u,
            canonical_path(parsed_path(u)->0),
            canonical_query_opt(parsed_query(u)->0),
        ) is Some ==> ({
            let c = url_components(u)->0;
            let w = canonical(u);
            parsed_path(w) == Some(canonical_path(c.3)) && parsed_query(w) == Some(
                canonical_query_opt(c.4),
            ) && url_with_path_query(
                w,
                canonical_path(c.3),
                canonical_query_opt(c.4),
            ) == Some(w)
        }),
    ensures
        canonical(canonical(u)) == canonical(u),
{
    if let Some(c) = url_components(u) {
        lemma_canonical_path_idempotent(c.3);
        if let Some(q) = c.4 {
            lemma_canonical_query_idempotent(q);
        }
    }
}

} // verus!
