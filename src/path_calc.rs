//! Relative paths between two files of the mirror.

use vstd::prelude::*;
use crate::text::{chars_of, string_of};
use crate::urls::{join_with, join_with_exec, split_on, split_on_exec, views};

verus! {

/// Relative path calculation between files.
pub struct PathCalculator;

/// The pieces that name a directory or file: not empty and not `.`.
pub open spec fn named_parts(ps: Seq<Seq<char>>) -> Seq<Seq<char>>
    decreases ps.len(),
{
    if ps.len() == 0 {
        ps
    } else {
        let prev = named_parts(ps.drop_last());
        if ps.last().len() == 0 || ps.last() == seq!['.'] {
            prev
        } else {
            prev.push(ps.last())
        }
    }
}

/// The components of a path: `/` for the root of an absolute path, then
/// each named piece between slashes.
pub open spec fn components(p: Seq<char>) -> Seq<Seq<char>> {
    let root = if p.len() > 0 && p[0] == '/' {
        seq![seq!['/']]
    } else {
        Seq::<Seq<char>>::empty()
    };
    root + named_parts(split_on(p, '/'))
}

/// Number of leading components that the two lists share.
pub open spec fn common_prefix_len(a: Seq<Seq<char>>, b: Seq<Seq<char>>) -> nat
    decreases a.len(),
{
    if a.len() == 0 || b.len() == 0 || a[0] != b[0] {
        0
    } else {
        1 + common_prefix_len(a.drop_first(), b.drop_first())
    }
}

/// `n` copies of `..`.
pub open spec fn ups(n: nat) -> Seq<Seq<char>>
    decreases n,
{
    if n == 0 {
        Seq::<Seq<char>>::empty()
    } else {
        ups((n - 1) as nat).push(seq!['.', '.'])
    }
}

/// The steps from directory `from_dir` to `to`: up to the common ancestor,
/// then down.
pub open spec fn relative_parts(from_dir: Seq<Seq<char>>, to: Seq<Seq<char>>) -> Seq<Seq<char>> {
    let k = common_prefix_len(from_dir, to);
    ups((from_dir.len() - k) as nat) + to.skip(k as int)
}

/// The file name of a path given by its components, or `index.html`.
pub open spec fn file_name_or_index(c: Seq<Seq<char>>) -> Seq<char> {
    if c.len() > 0 && c.last() != seq!['/'] && c.last() != seq!['.', '.'] {
        c.last()
    } else {
        "index.html"@
    }
}

/// The path of `to` relative to the directory that holds `from`: `to`
/// itself where `from` has no parent; the file name of `to` where the two
/// name the same place; else the steps joined by `/`.
pub open spec fn relative_path(from: Seq<char>, to: Seq<char>) -> Seq<char> {
    let fc = components(from);
    if fc.len() == 0 || fc == seq![seq!['/']] {
        to
    } else {
        let parts = relative_parts(fc.drop_last(), components(to));
        if parts.len() == 0 {
            file_name_or_index(components(to))
        } else {
            join_with(parts, '/')
        }
    }
}

/// Following the steps `rel` from the directory `base`: `..` goes up one
/// level (staying at the top), any other name goes down into it.
pub open spec fn follow(base: Seq<Seq<char>>, rel: Seq<Seq<char>>) -> Seq<Seq<char>>
    decreases rel.len(),
{
    if rel.len() == 0 {
        base
    } else {
        let b = follow(base, rel.drop_last());
        if rel.last() == seq!['.', '.'] {
            if b.len() > 0 {
                b.drop_last()
            } else {
                b
            }
        } else {
            b.push(rel.last())
        }
    }
}

pub open spec fn no_up_steps(c: Seq<Seq<char>>) -> bool {
    forall|i: int| 0 <= i < c.len() ==> #[trigger] c[i] != seq!['.', '.']
}

proof fn lemma_follow_ups(base: Seq<Seq<char>>, n: nat)
    requires
        n <= base.len(),
    ensures
        follow(base, ups(n)) == base.take(base.len() - n),
    decreases n,
{
    if n == 0 {
        assert(base.take(base.len() as int) =~= base);
    } else {
        lemma_follow_ups(base, (n - 1) as nat);
        assert(ups(n).drop_last() =~= ups((n - 1) as nat));
        assert(base.take(base.len() - (n - 1)).drop_last() =~= base.take(base.len() - n));
    }
}

proof fn lemma_follow_concat(base: Seq<Seq<char>>, r1: Seq<Seq<char>>, r2: Seq<Seq<char>>)
    ensures
        follow(base, r1 + r2) == follow(follow(base, r1), r2),
    decreases r2.len(),
{
    if r2.len() == 0 {
        assert(r1 + r2 =~= r1);
    } else {
        lemma_follow_concat(base, r1, r2.drop_last());
        assert((r1 + r2).drop_last() =~= r1 + r2.drop_last());
    }
}

proof fn lemma_follow_down(base: Seq<Seq<char>>, t: Seq<Seq<char>>)
    requires
        no_up_steps(t),
    ensures
        follow(base, t) == base + t,
    decreases t.len(),
{
    if t.len() == 0 {
        assert(base + t =~= base);
    } else {
        assert(no_up_steps(t.drop_last()));
        lemma_follow_down(base, t.drop_last());
        assert(t.last() == t[t.len() - 1]);
        assert((base + t.drop_last()).push(t.last()) =~= base + t);
    }
}

proof fn lemma_common_prefix(a: Seq<Seq<char>>, b: Seq<Seq<char>>)
    ensures
        common_prefix_len(a, b) <= a.len(),
        common_prefix_len(a, b) <= b.len(),
        a.take(common_prefix_len(a, b) as int) == b.take(common_prefix_len(a, b) as int),
    decreases a.len(),
{
    let k = common_prefix_len(a, b);
    if a.len() == 0 || b.len() == 0 || a[0] != b[0] {
        assert(a.take(0) =~= b.take(0));
    } else {
        lemma_common_prefix(a.drop_first(), b.drop_first());
        assert(a.take(k as int) =~= seq![a[0]] + a.drop_first().take(k - 1));
        assert(b.take(k as int) =~= seq![b[0]] + b.drop_first().take(k - 1));
    }
}

/// Following the relative steps from a directory leads to the target: for
/// components `from_dir` of a directory and `to` of a file, neither with a
/// `..` step, going from `from_dir` along `relative_parts(from_dir, to)`
/// arrives at `to`.
pub proof fn lemma_relative_parts_reach_target(from_dir: Seq<Seq<char>>, to: Seq<Seq<char>>)
    requires
        no_up_steps(from_dir),
        no_up_steps(to),
    ensures
        follow(from_dir, relative_parts(from_dir, to)) == to,
{
    let k = common_prefix_len(from_dir, to);
    lemma_common_prefix(from_dir, to);
    let n = (from_dir.len() - k) as nat;
    lemma_follow_concat(from_dir, ups(n), to.skip(k as int));
    lemma_follow_ups(from_dir, n);
    assert(no_up_steps(to.skip(k as int)));
    lemma_follow_down(from_dir.take(k as int), to.skip(k as int));
    assert(to.take(k as int) + to.skip(k as int) =~= to);
}


/// A piece that names a directory or file: not empty, not `.`, no `/`.
pub open spec fn named(c: Seq<char>) -> bool {
    c.len() > 0 && c != seq!['.'] && forall|j: int| 0 <= j < c.len() ==> c[j] != '/'
}

pub open spec fn all_named(cs: Seq<Seq<char>>) -> bool {
    forall|i: int| 0 <= i < cs.len() ==> named(#[trigger] cs[i])
}

proof fn lemma_named_parts_named(ps: Seq<Seq<char>>)
    requires
        forall|i: int, j: int| 0 <= i < ps.len() && 0 <= j < ps[i].len() ==> #[trigger] ps[i][j] != '/',
    ensures
        all_named(named_parts(ps)),
    decreases ps.len(),
{
    if ps.len() > 0 {
        let d = ps.drop_last();
        assert forall|i: int, j: int| 0 <= i < d.len() && 0 <= j < d[i].len() implies #[trigger] d[i][j] != '/' by {
            assert(d[i] == ps[i]);
        }
        lemma_named_parts_named(d);
        let prev = named_parts(d);
        let r = named_parts(ps);
        assert forall|i: int| 0 <= i < r.len() implies named(#[trigger] r[i]) by {
            if i < prev.len() {
                assert(r[i] == prev[i]);
            } else {
                assert(r[i] == ps[ps.len() - 1]);
                assert forall|j: int| 0 <= j < r[i].len() implies r[i][j] != '/' by {
                    assert(ps[ps.len() - 1][j] != '/');
                }
            }
        }
    }
}

proof fn lemma_named_parts_fixed(ps: Seq<Seq<char>>)
    requires
        all_named(ps),
    ensures
        named_parts(ps) == ps,
    decreases ps.len(),
{
    if ps.len() > 0 {
        let d = ps.drop_last();
        assert(all_named(d)) by {
            assert forall|i: int| 0 <= i < d.len() implies named(#[trigger] d[i]) by {
                assert(d[i] == ps[i]);
            }
        }
        lemma_named_parts_fixed(d);
        assert(named(ps[ps.len() - 1]));
        assert(d.push(ps.last()) =~= ps);
    }
}

/// Every component of a path names a directory or file, but the root.
proof fn lemma_components_named(p: Seq<char>)
    ensures
        forall|i: int|
            0 <= i < components(p).len() && (i > 0 || !(p.len() > 0 && p[0] == '/')) ==> named(
                #[trigger] components(p)[i],
            ),
{
    crate::urls::lemma_split_pieces(p, '/');
    lemma_named_parts_named(split_on(p, '/'));
    let root = if p.len() > 0 && p[0] == '/' {
        seq![seq!['/']]
    } else {
        Seq::<Seq<char>>::empty()
    };
    let np = named_parts(split_on(p, '/'));
    assert forall|i: int|
        0 <= i < components(p).len() && (i > 0 || !(p.len() > 0 && p[0] == '/')) implies named(
        #[trigger] components(p)[i],
    ) by {
        assert(components(p)[i] == np[i - root.len()]);
    }
}

proof fn lemma_join_first(ps: Seq<Seq<char>>, sep: char)
    requires
        ps.len() > 0,
        ps[0].len() > 0,
    ensures
        join_with(ps, sep).len() > 0,
        join_with(ps, sep)[0] == ps[0][0],
    decreases ps.len(),
{
    if ps.len() > 1 {
        lemma_join_first(ps.drop_last(), sep);
    }
}

/// The components of named steps joined by `/` are the steps.
proof fn lemma_components_of_join(steps: Seq<Seq<char>>)
    requires
        steps.len() > 0,
        all_named(steps),
    ensures
        components(join_with(steps, '/')) == steps,
{
    assert(named(steps[0]));
    lemma_join_first(steps, '/');
    assert forall|i: int, j: int| 0 <= i < steps.len() && 0 <= j < steps[i].len() implies #[trigger] steps[i][j]
        != '/' by {
        assert(named(steps[i]));
    }
    crate::urls::lemma_split_join(steps, '/');
    lemma_named_parts_fixed(steps);
    assert(Seq::<Seq<char>>::empty() + steps =~= steps);
}

proof fn lemma_ups_named(n: nat)
    ensures
        all_named(ups(n)),
        ups(n).len() == n,
    decreases n,
{
    if n > 0 {
        lemma_ups_named((n - 1) as nat);
        let r = ups(n);
        assert forall|i: int| 0 <= i < r.len() implies named(#[trigger] r[i]) by {
            if i < n - 1 {
                assert(r[i] == ups((n - 1) as nat)[i]);
            } else {
                assert(r[i] == seq!['.', '.']);
                assert(seq!['.', '.'] != seq!['.']) by {
                    assert(seq!['.', '.'].len() != seq!['.'].len());
                }
            }
        }
    }
}

/// Relative-path correctness: for two paths whose component lists share a
/// first component (a common root) and hold no `..`, where the relative
/// path is not the bare file name (the two differ in place), following
/// the components of `relative_path(a, b)` from the directory of `a`
/// arrives at the components of `b`.
pub proof fn lemma_relative_path_correct(a: Seq<char>, b: Seq<char>)
    requires
        components(a).len() > 1,
        no_up_steps(components(a)),
        no_up_steps(components(b)),
        common_prefix_len(components(a).drop_last(), components(b)) >= 1,
        relative_parts(components(a).drop_last(), components(b)).len() > 0,
    ensures
        follow(components(a).drop_last(), components(relative_path(a, b))) == components(b),
{
    let fc = components(a);
    let dir = fc.drop_last();
    let tc = components(b);
    let k = common_prefix_len(dir, tc);
    let steps = relative_parts(dir, tc);
    assert(fc != seq![seq!['/']]);
    assert(no_up_steps(dir));
    lemma_relative_parts_reach_target(dir, tc);
    lemma_common_prefix(dir, tc);
    lemma_components_named(b);
    lemma_ups_named((dir.len() - k) as nat);
    let down = tc.skip(k as int);
    assert forall|i: int| 0 <= i < steps.len() implies named(#[trigger] steps[i]) by {
        let u = ups((dir.len() - k) as nat);
        if i < u.len() {
            assert(steps[i] == u[i]);
        } else {
            assert(steps[i] == down[i - u.len()]);
            assert(down[i - u.len()] == tc[i - u.len() + k]);
        }
    }
    lemma_components_of_join(steps);
}

/// The components of the path `p`.
pub fn components_exec(p: &[char]) -> (r: Vec<Vec<char>>)
    ensures
        views(r@) == components(p@),
{
    let pieces = split_on_exec(p, '/');
    let mut out: Vec<Vec<char>> = Vec::new();
    let starts = p.len() > 0 && p[0] == '/';
    if starts {
        let mut root_part: Vec<char> = Vec::new();
        root_part.push('/');
        out.push(root_part);
        assert(views(out@)[0] == out@[0]@);
    }
    let ghost root = views(out@);
    assert(root =~= (if p@.len() > 0 && p@[0] == '/' {
        seq![seq!['/']]
    } else {
        Seq::<Seq<char>>::empty()
    }));
    let mut i: usize = 0;
    while i < pieces.len()
        invariant
            i <= pieces.len(),
            views(out@) == root + named_parts(views(pieces@).take(i as int)),
        decreases pieces.len() - i,
    {
        proof {
            assert(views(pieces@).take(i + 1).drop_last() =~= views(pieces@).take(i as int));
        }
        let keep = pieces[i].len() > 0 && !(pieces[i].len() == 1 && pieces[i][0] == '.');
        proof {
            if pieces[i as int]@.len() == 1 {
                assert(pieces[i as int]@ == seq!['.'] <==> pieces[i as int]@[0] == '.') by {
                    if pieces[i as int]@[0] == '.' {
                        assert(pieces[i as int]@ =~= seq!['.']);
                    }
                }
            }
            assert(views(pieces@)[i as int] == pieces@[i as int]@);
        }
        if keep {
            let ghost before = views(out@);
            let x = pieces[i].clone();
            assert(x@ == pieces@[i as int]@);
            out.push(x);
            assert(views(out@) =~= before.push(views(pieces@)[i as int]));
        }
        i = i + 1;
    }
    assert(views(pieces@).take(pieces.len() as int) =~= views(pieces@));
    assert(views(out@) =~= components(p@));
    out
}


fn is_up_step(v: &[char]) -> (r: bool)
    ensures
        r == (v@ == seq!['.', '.']),
{
    let r = v.len() == 2 && v[0] == '.' && v[1] == '.';
    assert(r ==> v@ =~= seq!['.', '.']);
    r
}

fn is_root(v: &[char]) -> (r: bool)
    ensures
        r == (v@ == seq!['/']),
{
    let r = v.len() == 1 && v[0] == '/';
    assert(r ==> v@ =~= seq!['/']);
    r
}

fn common_prefix_len_exec(a: &Vec<Vec<char>>, b: &Vec<Vec<char>>) -> (r: usize)
    ensures
        r == common_prefix_len(views(a@), views(b@)),
{
    let mut k: usize = 0;
    proof {
        assert(views(a@).skip(0) =~= views(a@));
        assert(views(b@).skip(0) =~= views(b@));
    }
    while k < a.len() && k < b.len() && crate::url_parser::chars_eq(a[k].as_slice(), b[k].as_slice())
        invariant
            k <= a.len(),
            k <= b.len(),
            common_prefix_len(views(a@), views(b@)) == k + common_prefix_len(
                views(a@).skip(k as int),
                views(b@).skip(k as int),
            ),
        decreases a.len() - k,
    {
        proof {
            assert(views(a@).skip(k + 1) =~= views(a@).skip(k as int).drop_first());
            assert(views(b@).skip(k + 1) =~= views(b@).skip(k as int).drop_first());
        }
        k = k + 1;
    }
    k
}

fn relative_parts_exec(from_dir: &Vec<Vec<char>>, to: &Vec<Vec<char>>) -> (r: Vec<Vec<char>>)
    ensures
        views(r@) == relative_parts(views(from_dir@), views(to@)),
{
    let k = common_prefix_len_exec(from_dir, to);
    proof {
        lemma_common_prefix(views(from_dir@), views(to@));
    }
    let mut out: Vec<Vec<char>> = Vec::new();
    let mut u: usize = 0;
    while u < from_dir.len() - k
        invariant
            k <= from_dir.len(),
            u <= from_dir.len() - k,
            views(out@) == ups(u as nat),
        decreases from_dir.len() - k - u,
    {
        let ghost before = views(out@);
        out.push(vec!['.', '.']);
        proof {
            assert(views(out@) =~= before.push(seq!['.', '.']));
            assert(views(out@) =~= ups(u as nat).push(seq!['.', '.']));
        }
        u = u + 1;
    }
    let ghost ups_part = views(out@);
    let mut i: usize = k;
    while i < to.len()
        invariant
            k <= i <= to.len(),
            views(out@) == ups_part + views(to@).subrange(k as int, i as int),
        decreases to.len() - i,
    {
        let x = to[i].clone();
        assert(x@ == views(to@)[i as int]);
        let ghost before = views(out@);
        out.push(x);
        assert(views(out@) =~= before.push(x@));
        assert(views(out@) =~= ups_part + views(to@).subrange(k as int, i + 1));
        i = i + 1;
    }
    assert(views(to@).subrange(k as int, to.len() as int) =~= views(to@).skip(k as int));
    assert(ups_part == ups((views(from_dir@).len() - common_prefix_len(views(from_dir@), views(to@))) as nat));
    out
}

fn file_name_or_index_exec(c: &Vec<Vec<char>>) -> (r: Vec<char>)
    ensures
        r@ == file_name_or_index(views(c@)),
{
    if c.len() > 0 {
        let last = &c[c.len() - 1];
        assert(views(c@).last() == last@);
        if !is_root(last.as_slice()) && !is_up_step(last.as_slice()) {
            return last.clone();
        }
    }
    chars_of("index.html")
}

impl PathCalculator {
    /// The path of `to_path` relative to the directory that holds
    /// `from_path`, with `/` between steps.
    pub fn calculate_relative_path(from_path: &str, to_path: &str) -> (r: String)
        ensures
            r@ == relative_path(from_path@, to_path@),
    {
        let fc = components_exec(chars_of(from_path).as_slice());
        let root_only = fc.len() == 1 && is_root(fc[0].as_slice());
        proof {
            if fc.len() == 1 {
                assert(views(fc@)[0] == fc@[0]@);
                assert(root_only == (views(fc@) =~= seq![seq!['/']]));
            }
        }
        if fc.len() == 0 || root_only {
            return to_path.to_string();
        }
        let mut from_dir = fc;
        from_dir.pop();
        assert(views(from_dir@) =~= views(fc@).drop_last());
        let tc = components_exec(chars_of(to_path).as_slice());
        let parts = relative_parts_exec(&from_dir, &tc);
        let out = if parts.len() == 0 {
            file_name_or_index_exec(&tc)
        } else {
            join_with_exec(&parts, '/')
        };
        string_of(out.as_slice())
    }
}

} // verus!
