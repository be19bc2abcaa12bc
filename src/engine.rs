//! The scheduling core of the crawl: a frontier of `(url, depth)` entries,
//! the set of URLs already dispatched, and the count of jobs in flight.
//!
//! The engine makes every decision; whoever runs it fetches the dispatched
//! URLs (concurrently, up to the worker count) and reports each finished job
//! with the links found on the page.

use vstd::prelude::*;
use std::collections::VecDeque;
use dashmap::DashSet;
use crate::config::CrawlerConfig;
use crate::url_parser::{in_scope, recursive_url, is_scope, StandardUrlParser};
use crate::text::{chars_of, str_has_infix};
use crate::urls::{canonical, canonicalize};
use crate::models::PageInfo;
use crate::extraction::{admit_all, page_base, page_candidates, page_title, HtmlProcessor};
use crate::saver::is_html;
use crate::rewriter::opt_str_view;

verus! {

#[verifier::external_type_specification]
#[verifier::external_body]
#[verifier::reject_recursive_types(K)]
#[verifier::reject_recursive_types(S)]
pub struct ExDashSet<K, S>(DashSet<K, S>);

/// The URLs that a `DashSet` of strings holds.
pub uninterp spec fn dash_contents(s: DashSet<String>) -> Set<Seq<char>>;

/// Relies on `dashmap::DashSet::new`: an empty set.
#[verifier::external_body]
fn dash_new() -> (r: DashSet<String>)
    ensures
        dash_contents(r) == Set::<Seq<char>>::empty(),
{
    DashSet::new()
}

/// Relies on `dashmap::DashSet::insert`: adds the key, and answers whether
/// it was absent.
#[verifier::external_body]
fn dash_insert(s: &mut DashSet<String>, key: String) -> (r: bool)
    ensures
        dash_contents(*final(s)) == dash_contents(*old(s)).insert(key@),
        r == !dash_contents(*old(s)).contains(key@),
{
    s.insert(key)
}

/// Relies on `dashmap::DashSet::contains`.
#[verifier::external_body]
fn dash_contains(s: &DashSet<String>, key: &str) -> (r: bool)
    ensures
        r == dash_contents(*s).contains(key@),
{
    s.contains(key)
}

/// Relies on `dashmap::DashSet::len`: the number of keys.
#[verifier::external_body]
fn dash_len(s: &DashSet<String>) -> (r: usize)
    ensures
        r == dash_contents(*s).len(),
{
    s.len()
}

/// Longest URL, in characters, that the crawl dispatches.
pub const MAX_URL_LEN: usize = 500;

/// The crawl engine's state.
pub struct CrawlEngine {
    config: CrawlerConfig,
    frontier: VecDeque<(String, usize)>,
    visited: DashSet<String>,
    active_workers: usize,
    /// Every job handed out so far, in order.
    dispatched: Ghost<Seq<(Seq<char>, usize)>>,
    /// Every entry taken from the frontier, in order.
    dequeued: Ghost<Seq<(Seq<char>, usize)>>,
}

pub open spec fn str_views(v: Seq<String>) -> Seq<Seq<char>> {
    v.map_values(|s: String| s@)
}

pub open spec fn entry_views(v: Seq<(String, usize)>) -> Seq<(Seq<char>, usize)> {
    v.map_values(|e: (String, usize)| (e.0@, e.1))
}

/// An entry passes the filters of dispatch and enqueueing: depth within
/// the bound, host in scope, no recursive-path mark, length at most the
/// limit.
pub open spec fn admitted(u: Seq<char>, d: int, max_depth: int, domains: Seq<Seq<char>>) -> bool {
    d <= max_depth && in_scope(u, domains) && !recursive_url(u) && u.len() <= MAX_URL_LEN
}

/// The entries that a finished job at depth `d` adds to the frontier: each
/// child, at depth `d + 1`, that is admitted and not yet visited, in order.
pub open spec fn enqueued_children(
    children: Seq<Seq<char>>,
    d: int,
    max_depth: int,
    domains: Seq<Seq<char>>,
    visited: Set<Seq<char>>,
) -> Seq<(Seq<char>, usize)>
    decreases children.len(),
{
    if children.len() == 0 {
        Seq::<(Seq<char>, usize)>::empty()
    } else {
        let prev = enqueued_children(children.drop_last(), d, max_depth, domains, visited);
        let c = children.last();
        if admitted(c, d + 1, max_depth, domains) && !visited.contains(c) {
            prev.push((c, (d + 1) as usize))
        } else {
            prev
        }
    }
}

impl CrawlEngine {
    pub closed spec fn max_depth(&self) -> int {
        self.config.max_depth as int
    }

    pub closed spec fn worker_count(&self) -> int {
        self.config.worker_count as int
    }

    pub closed spec fn domains(&self) -> Seq<Seq<char>> {
        str_views(self.config.allowed_domains@)
    }

    /// The frontier, front first.
    pub closed spec fn frontier_view(&self) -> Seq<(Seq<char>, usize)> {
        entry_views(self.frontier@)
    }

    /// The visited URLs, in the order they were dispatched.
    pub closed spec fn visited_seq(&self) -> Seq<Seq<char>> {
        self.dispatched@.map_values(|e: (Seq<char>, usize)| e.0)
    }

    pub open spec fn visited_set(&self) -> Set<Seq<char>> {
        self.visited_seq().to_set()
    }

    pub closed spec fn active(&self) -> int {
        self.active_workers as int
    }

    /// Every job handed out so far, in order.
    pub closed spec fn dispatched(&self) -> Seq<(Seq<char>, usize)> {
        self.dispatched@
    }

    /// Every entry taken from the frontier, in order.
    pub closed spec fn dequeued(&self) -> Seq<(Seq<char>, usize)> {
        self.dequeued@
    }

    /// An entry that passes the dispatch filters and is not yet visited.
    pub open spec fn fresh(&self, e: (Seq<char>, usize)) -> bool {
        admitted(e.0, e.1 as int, self.max_depth(), self.domains()) && !self.visited_set().contains(e.0)
    }

    /// The engine's invariant: the visited URLs are exactly the URLs of the
    /// jobs handed out, with no repeat; every job was admitted; every entry
    /// of the frontier is within the depth bound; no more jobs are in flight
    /// than workers.
    pub closed spec fn wf(&self) -> bool {
        &&& dash_contents(self.visited) == self.visited_seq().to_set()
        &&& self.visited_seq().no_duplicates()
        &&& forall|i: int|
            0 <= i < self.dequeued@.len() && admitted(
                #[trigger] self.dequeued@[i].0,
                self.dequeued@[i].1 as int,
                self.max_depth(),
                self.domains(),
            ) ==> self.visited_seq().contains(self.dequeued@[i].0)
        &&& forall|j: int| 0 <= j < self.dispatched@.len() ==> self.dequeued@.contains(#[trigger] self.dispatched@[j])
        &&& forall|i: int|
            0 <= i < self.dispatched@.len() ==> admitted(
                #[trigger] self.dispatched@[i].0,
                self.dispatched@[i].1 as int,
                self.max_depth(),
                self.domains(),
            )
        &&& forall|i: int|
            0 <= i < self.frontier@.len() ==> #[trigger] self.frontier@[i].1 <= self.config.max_depth
        &&& self.active_workers <= self.config.worker_count
    }

    /// A new engine whose frontier holds the canonical seed URL at depth 0.
    pub fn new(config: CrawlerConfig) -> (r: Self)
        ensures
            r.wf(),
            r.frontier_view() == seq![(canonical(config.base_url@), 0usize)],
            r.visited_seq().len() == 0,
            r.dispatched().len() == 0,
            r.dequeued().len() == 0,
            r.max_depth() <= usize::MAX,
            r.active() == 0,
            r.max_depth() == config.max_depth,
            r.worker_count() == config.worker_count,
            r.domains() == str_views(config.allowed_domains@),
    {
        let mut frontier: VecDeque<(String, usize)> = VecDeque::new();
        let seed = canonicalize(config.base_url.as_str());
        let ghost seed_view = seed@;
        frontier.push_back((seed, 0));
        let r = CrawlEngine {
            config,
            frontier,
            visited: dash_new(),
            active_workers: 0,
            dispatched: Ghost(Seq::empty()),
            dequeued: Ghost(Seq::empty()),
        };
        assert(r.frontier_view() =~= seq![(seed_view, 0usize)]);
        assert(r.visited_seq().to_set() =~= Set::<Seq<char>>::empty());
        r
    }

    /// Whether the entry passes the filters of dispatch.
    pub fn should_process_url_fast(&self, url: &str, depth: usize) -> (r: bool)
        ensures
            r == admitted(url@, depth as int, self.max_depth(), self.domains()),
    {
        if depth > self.config.max_depth {
            return false;
        }
        if !is_scope(url, &self.config.allowed_domains) {
            return false;
        }
        let parser = StandardUrlParser;
        if parser.is_recursive_url(url) {
            return false;
        }
        chars_of(url).len() <= MAX_URL_LEN
    }

    fn is_visited(&self, url: &str) -> (r: bool)
        requires
            dash_contents(self.visited) == self.visited_seq().to_set(),
        ensures
            r == self.visited_set().contains(url@),
    {
        dash_contains(&self.visited, url)
    }

    /// Hands out the next job, if a worker is free: takes entries from the
    /// front of the frontier, drops those that fail the filters or were
    /// visited, and dispatches the first other one, marking it visited.
    /// Returns `None` when every worker is busy (leaving the frontier as it
    /// is) or the frontier runs out.
    pub fn next_job(&mut self) -> (r: Option<(String, usize)>)
        requires
            old(self).wf(),
        ensures
            final(self).wf(),
            final(self).max_depth() == old(self).max_depth(),
            final(self).worker_count() == old(self).worker_count(),
            final(self).domains() == old(self).domains(),
            match r {
                Some(job) => {
                    &&& exists|k: int|
                        0 <= k < old(self).frontier_view().len()
                            && #[trigger] old(self).frontier_view()[k] == (job.0@, job.1)
                            && (forall|m: int| 0 <= m < k ==> !old(self).fresh(#[trigger] old(self).frontier_view()[m]))
                            && final(self).frontier_view() == old(self).frontier_view().skip(k + 1)
                            && final(self).dequeued() == old(self).dequeued() + old(self).frontier_view().take(k + 1)
                    &&& old(self).fresh((job.0@, job.1))
                    &&& final(self).visited_seq() == old(self).visited_seq().push(job.0@)
                    &&& final(self).dispatched() == old(self).dispatched().push((job.0@, job.1))
                    &&& final(self).active() == old(self).active() + 1
                },
                None => {
                    &&& final(self).visited_seq() == old(self).visited_seq()
                    &&& final(self).dispatched() == old(self).dispatched()
                    &&& final(self).active() == old(self).active()
                    &&& if old(self).active() < old(self).worker_count() {
                        &&& forall|m: int| 0 <= m < old(self).frontier_view().len() ==> !old(self).fresh(#[trigger] old(self).frontier_view()[m])
                        &&& final(self).frontier_view().len() == 0
                        &&& final(self).dequeued() == old(self).dequeued() + old(self).frontier_view()
                    } else {
                        &&& final(self).frontier_view() == old(self).frontier_view()
                        &&& final(self).dequeued() == old(self).dequeued()
                    }
                },
            },
    {
        if self.active_workers >= self.config.worker_count {
            return None;
        }
        let ghost orig = self.frontier_view();
        let ghost start_dq = self.dequeued@;
        let ghost mut pos: int = 0;
        assert(orig.skip(0) =~= orig);
        assert(start_dq + orig.take(0) =~= start_dq);
        loop
            invariant
                self.wf(),
                old(self).wf(),
                self.active_workers < self.config.worker_count,
                orig == old(self).frontier_view(),
                start_dq == old(self).dequeued@,
                0 <= pos <= orig.len(),
                self.frontier_view() == orig.skip(pos),
                self.dequeued@ == start_dq + orig.take(pos),
                forall|m: int| 0 <= m < pos ==> !old(self).fresh(#[trigger] orig[m]),
                self.config == old(self).config,
                self.visited == old(self).visited,
                self.dispatched == old(self).dispatched,
                self.active_workers == old(self).active_workers,
            decreases self.frontier@.len(),
        {
            let ghost before_front = self.frontier@;
            match self.frontier.pop_front() {
                None => {
                    assert(orig.skip(pos).len() == 0);
                    assert(orig.take(pos) =~= orig);
                    return None;
                },
                Some(entry) => {
                    let (url, depth) = entry;
                    proof {
                        assert(before_front.len() > 0);
                        assert(entry_views(before_front).len() == before_front.len());
                        assert(pos < orig.len());
                        assert(self.frontier@ =~= before_front.drop_first());
                        assert(orig[pos] == (url@, depth)) by {
                            assert(entry_views(before_front)[0] == orig.skip(pos)[0]);
                            assert(before_front[0] == entry);
                        }
                        assert(entry_views(before_front.drop_first()) =~= entry_views(before_front).drop_first());
                        assert(orig.skip(pos + 1) =~= orig.skip(pos).drop_first());
                        assert(self.frontier_view() =~= orig.skip(pos + 1));
                        assert(orig.take(pos + 1) =~= orig.take(pos).push(orig[pos]));
                    }
                    let ghost dq_before = self.dequeued@;
                    self.dequeued = Ghost(self.dequeued@.push((url@, depth)));
                    assert(self.dequeued@ =~= start_dq + orig.take(pos + 1));
                    let ok = self.should_process_url_fast(url.as_str(), depth);
                    let seen = self.is_visited(url.as_str());
                    if ok && !seen {
                        let ghost old_visited = self.visited_seq();
                        let kept = url.clone();
                        let _ = dash_insert(&mut self.visited, kept);
                        self.dispatched = Ghost(self.dispatched@.push((url@, depth)));
                        self.active_workers = self.active_workers + 1;
                        proof {
                            assert(self.visited_seq() =~= old_visited.push(url@));
                            assert(self.visited_seq().to_set() =~= old_visited.to_set().insert(url@)) by {
                                assert forall|x: Seq<char>| self.visited_seq().to_set().contains(x) implies old_visited.to_set().insert(url@).contains(x) by {
                                    let k = choose|k: int| 0 <= k < self.visited_seq().len() && self.visited_seq()[k] == x;
                                    if k < old_visited.len() {
                                        assert(old_visited[k] == x);
                                    }
                                }
                                assert forall|x: Seq<char>| old_visited.to_set().insert(url@).contains(x) implies self.visited_seq().to_set().contains(x) by {
                                    if x == url@ {
                                        assert(self.visited_seq()[old_visited.len() as int] == x);
                                    } else {
                                        let k = choose|k: int| 0 <= k < old_visited.len() && old_visited[k] == x;
                                        assert(self.visited_seq()[k] == x);
                                    }
                                }
                            }
                            assert forall|i: int, j: int|
                                0 <= i < self.visited_seq().len() && 0 <= j
                                    < self.visited_seq().len() && i != j implies self.visited_seq()[i]
                                != self.visited_seq()[j] by {
                                if i == old_visited.len() as int {
                                    assert(old_visited.to_set().contains(old_visited[j]));
                                } else if j == old_visited.len() as int {
                                    assert(old_visited.to_set().contains(old_visited[i]));
                                }
                            }
                            assert forall|i: int|
                                0 <= i < self.dispatched@.len() implies admitted(
                                #[trigger] self.dispatched@[i].0,
                                self.dispatched@[i].1 as int,
                                self.max_depth(),
                                self.domains(),
                            ) by {
                                if i < self.dispatched@.len() - 1 {
                                    assert(self.dispatched@[i] == old(self).dispatched@[i]);
                                }
                            }
                            assert forall|i: int|
                                0 <= i < self.dequeued@.len() && admitted(
                                    #[trigger] self.dequeued@[i].0,
                                    self.dequeued@[i].1 as int,
                                    self.max_depth(),
                                    self.domains(),
                                ) implies self.visited_seq().contains(self.dequeued@[i].0) by {
                                if i < dq_before.len() {
                                    assert(self.dequeued@[i] == dq_before[i]);
                                    assert(old_visited.contains(dq_before[i].0));
                                    let w = choose|w: int| 0 <= w < old_visited.len() && old_visited[w] == dq_before[i].0;
                                    assert(self.visited_seq()[w] == old_visited[w]);
                                } else {
                                    assert(self.visited_seq()[old_visited.len() as int] == url@);
                                }
                            }
                            assert forall|j: int| 0 <= j < self.dispatched@.len() implies self.dequeued@.contains(#[trigger] self.dispatched@[j]) by {
                                if j < self.dispatched@.len() - 1 {
                                    assert(self.dispatched@[j] == old(self).dispatched@[j]);
                                    let w = choose|w: int| 0 <= w < dq_before.len() && dq_before[w] == old(self).dispatched@[j];
                                    assert(self.dequeued@[w] == dq_before[w]);
                                } else {
                                    assert(self.dequeued@[dq_before.len() as int] == self.dispatched@[j]);
                                }
                            }
                            assert(old(self).fresh((url@, depth)));
                            assert(self.frontier_view().len() == self.frontier@.len());
                        }
                        return Some((url, depth));
                    }
                    proof {
                        assert(!old(self).fresh(orig[pos]));
                        assert forall|i: int|
                            0 <= i < self.dequeued@.len() && admitted(
                                #[trigger] self.dequeued@[i].0,
                                self.dequeued@[i].1 as int,
                                self.max_depth(),
                                self.domains(),
                            ) implies self.visited_seq().contains(self.dequeued@[i].0) by {
                            if i < dq_before.len() {
                                assert(self.dequeued@[i] == dq_before[i]);
                            } else {
                                assert(self.dequeued@[i] == (url@, depth));
                                assert(self.visited_seq().to_set().contains(url@));
                            }
                        }
                        assert forall|j: int| 0 <= j < self.dispatched@.len() implies self.dequeued@.contains(#[trigger] self.dispatched@[j]) by {
                            let w = choose|w: int| 0 <= w < dq_before.len() && dq_before[w] == self.dispatched@[j];
                            assert(self.dequeued@[w] == dq_before[w]);
                        }
                        pos = pos + 1;
                    }
                },
            }
        }
    }

    /// Records that the job at `depth` finished, with the links found on
    /// the page: one worker is free again, and each link that is admitted
    /// at `depth + 1` and not yet visited joins the back of the frontier.
    pub fn finish_job(&mut self, depth: usize, children: &Vec<String>)
        requires
            old(self).wf(),
            old(self).active() > 0,
        ensures
            final(self).wf(),
            final(self).max_depth() == old(self).max_depth(),
            final(self).worker_count() == old(self).worker_count(),
            final(self).domains() == old(self).domains(),
            final(self).visited_seq() == old(self).visited_seq(),
            final(self).dispatched() == old(self).dispatched(),
            final(self).dequeued() == old(self).dequeued(),
            final(self).active() == old(self).active() - 1,
            final(self).frontier_view() == old(self).frontier_view() + enqueued_children(
                str_views(children@),
                depth as int,
                old(self).max_depth(),
                old(self).domains(),
                old(self).visited_set(),
            ),
    {
        self.active_workers = self.active_workers - 1;
        let ghost cs = str_views(children@);
        if depth >= self.config.max_depth {
            proof {
                lemma_none_enqueued_beyond(cs, depth as int, self.max_depth(), self.domains(), self.visited_set());
                assert(self.frontier_view() =~= old(self).frontier_view() + Seq::empty());
            }
            return;
        }
        let child_depth = depth + 1;
        let mut i: usize = 0;
        while i < children.len()
            invariant
                self.wf(),
                depth < self.config.max_depth,
                child_depth == depth + 1,
                cs == str_views(children@),
                self.config == old(self).config,
                self.visited == old(self).visited,
                self.dispatched == old(self).dispatched,
                self.dequeued == old(self).dequeued,
                self.active_workers == old(self).active_workers - 1,
                i <= children.len(),
                self.frontier_view() == old(self).frontier_view() + enqueued_children(
                    cs.take(i as int),
                    depth as int,
                    self.max_depth(),
                    self.domains(),
                    self.visited_set(),
                ),
            decreases children.len() - i,
        {
            proof {
                assert(cs.take(i + 1).drop_last() =~= cs.take(i as int));
                assert(cs.take(i + 1).last() == cs[i as int]);
            }
            let c = children[i].as_str();
            if self.should_process_url_fast(c, child_depth) && !self.is_visited(c) {
                let ghost before = self.frontier_view();
                self.frontier.push_back((children[i].clone(), child_depth));
                proof {
                    assert(self.frontier_view() =~= before.push((cs[i as int], child_depth)));
                }
            }
            i = i + 1;
        }
        assert(cs.take(children.len() as int) =~= cs);
    }

    /// The crawl is over: nothing left in the frontier and no job in flight.
    pub fn is_done(&self) -> (r: bool)
        ensures
            r == (self.frontier_view().len() == 0 && self.active() == 0),
    {
        self.frontier.len() == 0 && self.active_workers == 0
    }

    /// How many jobs are in flight.
    pub fn active_workers(&self) -> (r: usize)
        ensures
            r == self.active(),
    {
        self.active_workers
    }

    /// How many URLs have been dispatched.
    pub fn visited_count(&self) -> (r: usize)
        requires
            self.wf(),
        ensures
            r == self.visited_seq().len(),
    {
        proof {
            self.visited_seq().unique_seq_to_set();
        }
        dash_len(&self.visited)
    }
}

proof fn lemma_none_enqueued_beyond(
    cs: Seq<Seq<char>>,
    d: int,
    max_depth: int,
    domains: Seq<Seq<char>>,
    visited: Set<Seq<char>>,
)
    requires
        d >= max_depth,
    ensures
        enqueued_children(cs, d, max_depth, domains, visited).len() == 0,
    decreases cs.len(),
{
    if cs.len() > 0 {
        lemma_none_enqueued_beyond(cs.drop_last(), d, max_depth, domains, visited);
    }
}


/// The URLs of the entries taken from the frontier that passed the
/// dispatch filters.
pub open spec fn admitted_dequeued(e: &CrawlEngine) -> Set<Seq<char>> {
    Set::new(
        |u: Seq<char>|
            exists|i: int|
                0 <= i < e.dequeued().len() && #[trigger] e.dequeued()[i].0 == u && admitted(
                    u,
                    e.dequeued()[i].1 as int,
                    e.max_depth(),
                    e.domains(),
                ),
    )
}

/// At most once dispatch: every entry taken from the frontier was either
/// visited or dropped by the filters; the visited set is exactly the set of
/// URLs taken from the frontier that passed the filters; each of them was
/// handed out once, so the two sets and the jobs have one size.
pub proof fn lemma_at_most_once_dispatch(e: &CrawlEngine)
    requires
        e.wf(),
    ensures
        forall|i: int|
            0 <= i < e.dequeued().len() ==> e.visited_set().contains(#[trigger] e.dequeued()[i].0)
                || !admitted(e.dequeued()[i].0, e.dequeued()[i].1 as int, e.max_depth(), e.domains()),
        e.visited_set() == admitted_dequeued(e),
        e.dispatched().map_values(|j: (Seq<char>, usize)| j.0).no_duplicates(),
        e.dispatched().map_values(|j: (Seq<char>, usize)| j.0).to_set() == e.visited_set(),
        e.visited_set().len() == e.dispatched().len(),
        admitted_dequeued(e).len() == e.dispatched().len(),
{
    e.visited_seq().unique_seq_to_set();
    assert forall|u: Seq<char>| e.visited_set().contains(u) <==> admitted_dequeued(e).contains(u) by {
        if e.visited_set().contains(u) {
            let j = choose|j: int| 0 <= j < e.visited_seq().len() && e.visited_seq()[j] == u;
            assert(e.visited_seq()[j] == e.dispatched()[j].0);
            assert(e.dequeued().contains(e.dispatched()[j]));
            let i = choose|i: int| 0 <= i < e.dequeued().len() && e.dequeued()[i] == e.dispatched()[j];
            assert(admitted(e.dispatched()[j].0, e.dispatched()[j].1 as int, e.max_depth(), e.domains()));
            assert(e.dequeued()[i].0 == u);
        }
        if admitted_dequeued(e).contains(u) {
            let i = choose|i: int|
                0 <= i < e.dequeued().len() && #[trigger] e.dequeued()[i].0 == u && admitted(
                    u,
                    e.dequeued()[i].1 as int,
                    e.max_depth(),
                    e.domains(),
                );
            assert(e.visited_seq().contains(e.dequeued()[i].0));
        }
    }
    assert(e.visited_set() =~= admitted_dequeued(e));
}

/// Depth bound: no job handed out is deeper than the maximum depth, which
/// is itself a `usize` (so a child's depth `d + 1 <= max_depth` fits).
pub proof fn lemma_depth_bound(e: &CrawlEngine)
    requires
        e.wf(),
    ensures
        0 <= e.max_depth() <= usize::MAX,
        forall|i: int| 0 <= i < e.dispatched().len() ==> #[trigger] e.dispatched()[i].1 <= e.max_depth(),
{
    assert forall|i: int| 0 <= i < e.dispatched().len() implies #[trigger] e.dispatched()[i].1
        <= e.max_depth() by {
        assert(admitted(e.dispatched()[i].0, e.dispatched()[i].1 as int, e.max_depth(), e.domains()));
    }
}

/// Children of a job at depth `d` enter the frontier at depth `d + 1`, and
/// never beyond the maximum depth.
pub proof fn lemma_children_depth(
    children: Seq<Seq<char>>,
    d: int,
    max_depth: int,
    domains: Seq<Seq<char>>,
    visited: Set<Seq<char>>,
)
    requires
        0 <= d,
        max_depth <= usize::MAX,
    ensures
        forall|i: int|
            0 <= i < enqueued_children(children, d, max_depth, domains, visited).len() ==> {
                let e = #[trigger] enqueued_children(children, d, max_depth, domains, visited)[i];
                e.1 == d + 1 && e.1 <= max_depth
            },
    decreases children.len(),
{
    if children.len() > 0 {
        lemma_children_depth(children.drop_last(), d, max_depth, domains, visited);
        let prev = enqueued_children(children.drop_last(), d, max_depth, domains, visited);
        let all = enqueued_children(children, d, max_depth, domains, visited);
        assert forall|i: int| 0 <= i < all.len() implies #[trigger] all[i].1 == d + 1 && all[i].1
            <= max_depth by {
            if i < prev.len() {
                assert(all[i] == prev[i]);
            }
        }
    }
}

/// Scope closure: with a non-empty list of allowed domains, every visited
/// URL is in scope.
pub proof fn lemma_scope_closure(e: &CrawlEngine)
    requires
        e.wf(),
        e.domains().len() > 0,
    ensures
        forall|u: Seq<char>| e.visited_set().contains(u) ==> in_scope(u, e.domains()),
{
    assert forall|u: Seq<char>| e.visited_set().contains(u) implies in_scope(u, e.domains()) by {
        let i = choose|i: int| 0 <= i < e.visited_seq().len() && e.visited_seq()[i] == u;
        assert(e.visited_seq()[i] == e.dispatched()[i].0);
        assert(admitted(e.dispatched()[i].0, e.dispatched()[i].1 as int, e.max_depth(), e.domains()));
    }
}

/// Termination: where a finite set holds every URL that the crawl can
/// admit, the crawl hands out at most as many jobs as the set has members.
/// Each handed-out job grows the visited set (`next_job`), each finished
/// job frees its worker (`finish_job`), and with no job in flight an empty
/// answer from `next_job` leaves the frontier empty, so `is_done` holds.
pub proof fn lemma_dispatch_bounded(e: &CrawlEngine, reachable: Set<Seq<char>>)
    requires
        e.wf(),
        reachable.finite(),
        forall|u: Seq<char>, d: int| admitted(u, d, e.max_depth(), e.domains()) ==> reachable.contains(u),
    ensures
        e.dispatched().len() <= reachable.len(),
{
    lemma_at_most_once_dispatch(e);
    assert forall|u: Seq<char>| e.visited_set().contains(u) implies reachable.contains(u) by {
        let i = choose|i: int| 0 <= i < e.visited_seq().len() && e.visited_seq()[i] == u;
        assert(e.visited_seq()[i] == e.dispatched()[i].0);
        assert(admitted(e.dispatched()[i].0, e.dispatched()[i].1 as int, e.max_depth(), e.domains()));
    }
    vstd::set_lib::lemma_len_subset(e.visited_set(), reachable);
}


/// The page record of a fetched URL, and the links it offers the frontier.
/// For HTML (by content type) the links and the title come from the
/// processor run on `cleaned`, the preprocessed body, against the URL;
/// otherwise the record has neither. The record keeps `body` as received.
pub fn build_page(
    url: &str,
    status: u16,
    content_type: String,
    content_length: Option<usize>,
    body: String,
    cleaned: &str,
    depth: usize,
    processor: &HtmlProcessor,
    base_domain: &str,
    base_path: &str,
) -> (r: (PageInfo, Vec<String>))
    requires
        depth < usize::MAX,
    ensures
        r.0.url@ == url@,
        r.0.status_code == status,
        r.0.content_type == content_type,
        r.0.content_length == content_length,
        r.0.content == body,
        r.1@ == r.0.links@,
        if is_html(content_type@) {
            &&& str_views(r.0.links@) == admit_all(processor.bl(), page_base(cleaned@, url@), page_candidates(cleaned@))
            &&& opt_str_view(r.0.title) == page_title(cleaned@)
        } else {
            &&& r.0.links@.len() == 0
            &&& r.0.title is None
        },
{
    let html = str_has_infix(chars_of(content_type.as_str()).as_slice(), "text/html");
    if html {
        let (links, title, _new_urls) = processor.process(url, cleaned, depth + 1, base_domain, base_path);
        let children = clone_strings(&links);
        let page = PageInfo {
            url: url.to_string(),
            status_code: status,
            content_type,
            content_length,
            title,
            links,
            content: body,
        };
        (page, children)
    } else {
        let page = PageInfo {
            url: url.to_string(),
            status_code: status,
            content_type,
            content_length,
            title: None,
            links: Vec::new(),
            content: body,
        };
        (page, Vec::new())
    }
}

/// A copy of the strings.
pub fn clone_strings(v: &Vec<String>) -> (r: Vec<String>)
    ensures
        r@ == v@,
{
    let mut out: Vec<String> = Vec::new();
    let mut i: usize = 0;
    while i < v.len()
        invariant
            i <= v.len(),
            out@ == v@.take(i as int),
        decreases v.len() - i,
    {
        let x = v[i].clone();
        out.push(x);
        assert(out@ =~= v@.take(i + 1));
        i = i + 1;
    }
    assert(v@.take(v.len() as int) =~= v@);
    out
}


/// Ends a crawl that makes no progress: counts consecutive idle waits and
/// trips once they exceed the limit.
pub struct Watchdog {
    limit: u32,
    idle: u32,
}

impl Watchdog {
    pub closed spec fn limit_view(&self) -> int {
        self.limit as int
    }

    pub closed spec fn idle_view(&self) -> int {
        self.idle as int
    }

    pub fn new(limit: u32) -> (r: Self)
        ensures
            r.limit_view() == limit,
            r.idle_view() == 0,
    {
        Watchdog { limit, idle: 0 }
    }

    /// Progress was made: the count starts again.
    pub fn reset(&mut self)
        ensures
            final(self).limit_view() == old(self).limit_view(),
            final(self).idle_view() == 0,
    {
        self.idle = 0;
    }

    /// One more idle wait; whether the crawl is to be ended.
    pub fn tick(&mut self) -> (r: bool)
        ensures
            final(self).limit_view() == old(self).limit_view(),
            final(self).idle_view() == if old(self).idle_view() < u32::MAX {
                old(self).idle_view() + 1
            } else {
                old(self).idle_view()
            },
            r == (final(self).idle_view() > old(self).limit_view()),
    {
        if self.idle < u32::MAX {
            self.idle = self.idle + 1;
        }
        self.idle > self.limit
    }
}

} // verus!
