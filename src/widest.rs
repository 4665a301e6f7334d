//! Strongest paths between candidates
//!
//! A path from `a` to `b` is a walk through the table of direct wins; its
//! strength is that of its weakest link, and the strongest path is the one
//! whose weakest link is strongest. All strengths are found at once by the
//! widest-path form of Floyd–Warshall: `max` in place of `min`, `min` in place
//! of `+`.
use crate::paths::{is_square, Paths};
use vstd::prelude::*;

verus! {

/// The smaller of two strengths.
pub open spec fn weaker(x: u32, y: u32) -> u32 {
    if x < y {
        x
    } else {
        y
    }
}

/// The greater of two strengths.
pub open spec fn stronger(x: u32, y: u32) -> u32 {
    if x > y {
        x
    } else {
        y
    }
}

/// `w` is a path from `a` to `b` among `n` candidates: at least two steps'
/// ends, each a candidate, and no candidate followed by itself.
pub open spec fn is_path(n: int, w: Seq<int>, a: int, b: int) -> bool {
    &&& w.len() >= 2
    &&& w[0] == a
    &&& w.last() == b
    &&& forall|t: int| 0 <= t < w.len() ==> 0 <= #[trigger] w[t] < n
    &&& forall|t: int| 0 <= t < w.len() - 1 ==> #[trigger] w[t] != w[t + 1]
}

/// The strength of the weakest link of `w` in the table `d`.
pub open spec fn path_strength(d: Seq<Seq<u32>>, w: Seq<int>) -> u32
    decreases w.len(),
{
    if w.len() <= 2 {
        d[w[0]][w[1]]
    } else {
        weaker(d[w[0]][w[1]], path_strength(d, w.drop_first()))
    }
}

/// `s` is the strength of the strongest path from `a` to `b` in `d`: some
/// path has it, and none has more.
pub open spec fn is_strongest(d: Seq<Seq<u32>>, a: int, b: int, s: u32) -> bool {
    &&& exists|w: Seq<int>| #[trigger] is_path(d.len() as int, w, a, b) && path_strength(d, w) == s
    &&& forall|w: Seq<int>| #[trigger]
        is_path(d.len() as int, w, a, b) ==> path_strength(d, w) <= s
}

/// `p` holds, for each ordered pair of distinct candidates, the strength of
/// the strongest path between them in `d`.
pub open spec fn strongest_table(d: Seq<Seq<u32>>, p: Seq<Seq<u32>>) -> bool {
    &&& is_square(d)
    &&& is_square(p)
    &&& p.len() == d.len()
    &&& forall|a: int, b: int|
        0 <= a < d.len() && 0 <= b < d.len() && a != b ==> #[trigger] is_strongest(d, a, b, p[a][b])
}

/// All inner candidates of `w` are below `k`.
pub open spec fn inner_below(w: Seq<int>, k: int) -> bool {
    forall|t: int| 0 < t < w.len() - 1 ==> #[trigger] w[t] < k
}

/// A path from `a` to `b` that passes only through candidates below `k`.
pub open spec fn is_path_below(n: int, w: Seq<int>, a: int, b: int, k: int) -> bool {
    is_path(n, w, a, b) && inner_below(w, k)
}

/// After the first `k` rounds, `p[a][b]` is the strength of the strongest path
/// from `a` to `b` through candidates below `k`.
pub open spec fn strongest_below(d: Seq<Seq<u32>>, p: Seq<Seq<u32>>, k: int) -> bool {
    let n = d.len() as int;
    &&& is_square(d)
    &&& is_square(p)
    &&& p.len() == n
    &&& forall|a: int, b: int|
        0 <= a < n && 0 <= b < n && a != b ==> #[trigger] reaches_below(d, a, b, k, p[a][b])
    &&& forall|a: int, b: int, w: Seq<int>| #[trigger]
        is_path_below(n, w, a, b, k) && a != b ==> path_strength(d, w) <= #[trigger] p[a][b]
}

/// Some path from `a` to `b` through candidates below `k` has strength `s`.
pub open spec fn reaches_below(d: Seq<Seq<u32>>, a: int, b: int, k: int, s: u32) -> bool {
    exists|w: Seq<int>| #[trigger]
        is_path_below(d.len() as int, w, a, b, k) && path_strength(d, w) == s
}

/// The cell `(a, b)` after round `k`: routed through `k` where that is stronger.
pub open spec fn relaxed(m: Seq<Seq<u32>>, k: int, a: int, b: int) -> u32 {
    if a != k && b != k && a != b {
        stronger(m[a][b], weaker(m[a][k], m[k][b]))
    } else {
        m[a][b]
    }
}

/// The table after round `k`.
pub open spec fn relax_round(m: Seq<Seq<u32>>, k: int) -> Seq<Seq<u32>> {
    Seq::new(m.len(), |a: int| Seq::new(m.len(), |b: int| relaxed(m, k, a, b)))
}

/// The weakest link is no stronger than any link, and is one of them.
proof fn lemma_strength_links(d: Seq<Seq<u32>>, w: Seq<int>)
    requires
        w.len() >= 2,
    ensures
        forall|t: int| 0 <= t < w.len() - 1 ==> path_strength(d, w) <= #[trigger] d[w[t]][w[t + 1]],
        exists|t: int| 0 <= t < w.len() - 1 && path_strength(d, w) == #[trigger] d[w[t]][w[t + 1]],
    decreases w.len(),
{
    if w.len() > 2 {
        let r = w.drop_first();
        lemma_strength_links(d, r);
        assert forall|t: int| 0 <= t < w.len() - 1 implies path_strength(d, w) <= #[trigger] d[w[t]][w[t + 1]] by {
            if t > 0 {
                assert(r[t - 1] == w[t] && r[t] == w[t + 1]);
            }
        }
        if path_strength(d, w) == d[w[0]][w[1]] {
            assert(path_strength(d, w) == d[w[0]][w[0int + 1]]);
        } else {
            let t = choose|t: int| 0 <= t < r.len() - 1 && path_strength(d, r) == #[trigger] d[r[t]][r[t + 1]];
            assert(r[t] == w[t + 1] && r[t + 1] == w[t + 1 + 1]);
        }
    } else {
        assert(path_strength(d, w) == d[w[0]][w[0int + 1]]);
    }
}

/// The weakest link of a path lies at or below that of any stretch of it.
proof fn lemma_strength_stretch(d: Seq<Seq<u32>>, w: Seq<int>, i: int, j: int)
    requires
        0 <= i < j < w.len(),
    ensures
        path_strength(d, w) <= path_strength(d, w.subrange(i, j + 1)),
{
    let s = w.subrange(i, j + 1);
    lemma_strength_links(d, w);
    lemma_strength_links(d, s);
    let t = choose|t: int| 0 <= t < s.len() - 1 && path_strength(d, s) == #[trigger] d[s[t]][s[t + 1]];
    assert(s[t] == w[i + t] && s[t + 1] == w[i + t + 1]);
}

/// Two paths joined end to start: a path whose weakest link is the weaker of
/// the two.
proof fn lemma_join(d: Seq<Seq<u32>>, n: int, u: Seq<int>, v: Seq<int>, a: int, c: int, b: int)
    requires
        is_path(n, u, a, c),
        is_path(n, v, c, b),
    ensures
        is_path(n, u + v.drop_first(), a, b),
        path_strength(d, u + v.drop_first()) == weaker(path_strength(d, u), path_strength(d, v)),
{
    let w = u + v.drop_first();
    let ul = u.len() as int;
    assert forall|t: int| 0 <= t < w.len() implies 0 <= #[trigger] w[t] < n by {
        if t >= ul {
            assert(w[t] == v[t - ul + 1]);
        }
    }
    assert forall|t: int| 0 <= t < w.len() - 1 implies #[trigger] w[t] != w[t + 1] by {
        if t < ul - 1 {
        } else if t == ul - 1 {
            assert(w[t] == v[0] && w[t + 1] == v[1]);
        } else {
            assert(w[t] == v[t - ul + 1] && w[t + 1] == v[t - ul + 1 + 1]);
        }
    }
    assert(w.last() == b);
    lemma_strength_links(d, u);
    lemma_strength_links(d, v);
    lemma_strength_links(d, w);
    // the weakest link of the joined path is no stronger than that of each part
    let tu = choose|t: int| 0 <= t < u.len() - 1 && path_strength(d, u) == #[trigger] d[u[t]][u[t + 1]];
    assert(w[tu] == u[tu] && w[tu + 1] == u[tu + 1]);
    let tv = choose|t: int| 0 <= t < v.len() - 1 && path_strength(d, v) == #[trigger] d[v[t]][v[t + 1]];
    assert(w[tv + ul - 1] == v[tv] && w[tv + ul - 1 + 1] == v[tv + 1]);
    // and it is a link of one of them
    let tw = choose|t: int| 0 <= t < w.len() - 1 && path_strength(d, w) == #[trigger] d[w[t]][w[t + 1]];
    if tw < ul - 1 {
        assert(w[tw] == u[tw] && w[tw + 1] == u[tw + 1]);
    } else {
        assert(w[tw] == v[tw - ul + 1] && w[tw + 1] == v[tw - ul + 1 + 1]);
    }
}

/// The first place where `x` stands in `w`.
proof fn first_place(w: Seq<int>, x: int, i: int) -> (f: int)
    requires
        0 <= i < w.len(),
        w[i] == x,
    ensures
        0 <= f <= i,
        w[f] == x,
        forall|t: int| 0 <= t < f ==> w[t] != x,
    decreases i,
{
    if w[0] == x {
        0
    } else {
        let r = w.drop_first();
        let f = first_place(r, x, i - 1);
        assert forall|t: int| 0 <= t < f + 1 implies w[t] != x by {
            if t > 0 {
                assert(w[t] == r[t - 1]);
            }
        }
        f + 1
    }
}

/// The last place where `x` stands in `w`.
proof fn last_place(w: Seq<int>, x: int, i: int) -> (l: int)
    requires
        0 <= i < w.len(),
        w[i] == x,
    ensures
        i <= l < w.len(),
        w[l] == x,
        forall|t: int| l < t < w.len() ==> w[t] != x,
    decreases w.len() - i,
{
    if w.last() == x {
        w.len() - 1
    } else {
        let r = w.drop_last();
        let l = last_place(r, x, i);
        assert forall|t: int| l < t < w.len() implies w[t] != x by {
            if t < w.len() - 1 {
                assert(w[t] == r[t]);
            }
        }
        l
    }
}

/// Before any round, each cell is the direct link: the only path through no
/// candidate at all.
pub proof fn lemma_strongest_below_start(d: Seq<Seq<u32>>)
    requires
        is_square(d),
    ensures
        strongest_below(d, d, 0),
{
    let n = d.len() as int;
    assert forall|a: int, b: int| 0 <= a < n && 0 <= b < n && a != b implies #[trigger] reaches_below(
        d,
        a,
        b,
        0,
        d[a][b],
    ) by {
        let w = seq![a, b];
        assert(is_path_below(n, w, a, b, 0));
    }
    assert forall|a: int, b: int, w: Seq<int>| #[trigger]
        is_path_below(n, w, a, b, 0) && a != b implies path_strength(d, w) <= #[trigger] d[a][b] by {
        if w.len() > 2 {
            assert(w[1] >= 0);
            assert(w[1] < 0);
        }
    }
}

/// A round through `k` turns strongest paths below `k` into strongest paths
/// below `k + 1`.
pub proof fn lemma_relax_round(d: Seq<Seq<u32>>, p: Seq<Seq<u32>>, k: int)
    requires
        strongest_below(d, p, k),
        0 <= k < d.len(),
    ensures
        strongest_below(d, relax_round(p, k), k + 1),
{
    lemma_relax_round_reaches(d, p, k);
    lemma_relax_round_bounds(d, p, k);
}

/// After the round through `k`, each cell is the strength of some path
/// through candidates below `k + 1`.
proof fn lemma_relax_round_reaches(d: Seq<Seq<u32>>, p: Seq<Seq<u32>>, k: int)
    requires
        strongest_below(d, p, k),
        0 <= k < d.len(),
    ensures
        forall|a: int, b: int|
            0 <= a < d.len() && 0 <= b < d.len() && a != b ==> #[trigger] reaches_below(
                d,
                a,
                b,
                k + 1,
                relax_round(p, k)[a][b],
            ),
{
    let n = d.len() as int;
    let q = relax_round(p, k);
    assert forall|a: int, b: int| 0 <= a < n && 0 <= b < n && a != b implies #[trigger] reaches_below(
        d,
        a,
        b,
        k + 1,
        q[a][b],
    ) by {
        assert(reaches_below(d, a, b, k, p[a][b]));
        let w = choose|w: Seq<int>| #[trigger]
            is_path_below(n, w, a, b, k) && path_strength(d, w) == p[a][b];
        assert(is_path_below(n, w, a, b, k + 1));
        if a != k && b != k && weaker(p[a][k], p[k][b]) > p[a][b] {
            assert(reaches_below(d, a, k, k, p[a][k]));
            assert(reaches_below(d, k, b, k, p[k][b]));
            let u = choose|u: Seq<int>| #[trigger]
                is_path_below(n, u, a, k, k) && path_strength(d, u) == p[a][k];
            let v = choose|v: Seq<int>| #[trigger]
                is_path_below(n, v, k, b, k) && path_strength(d, v) == p[k][b];
            lemma_join(d, n, u, v, a, k, b);
            let j = u + v.drop_first();
            assert(is_path_below(n, j, a, b, k + 1));
        }
    }
}

/// A stretch of a path is a path.
proof fn lemma_stretch_is_path(n: int, w: Seq<int>, a: int, b: int, i: int, j: int)
    requires
        is_path(n, w, a, b),
        0 <= i < j < w.len(),
    ensures
        is_path(n, w.subrange(i, j + 1), w[i], w[j]),
{
    let s = w.subrange(i, j + 1);
    assert forall|t: int| 0 <= t < s.len() implies 0 <= #[trigger] s[t] < n by {
        assert(s[t] == w[i + t]);
    }
    assert forall|t: int| 0 <= t < s.len() - 1 implies #[trigger] s[t] != s[t + 1] by {
        assert(s[t] == w[i + t] && s[t + 1] == w[i + t + 1]);
    }
}

/// The stretch of `w` up to its first visit of `k`: a path through
/// candidates below `k`, and no weaker than `w`.
proof fn stretch_to_first(d: Seq<Seq<u32>>, n: int, w: Seq<int>, a: int, b: int, k: int, i: int) -> (u: Seq<int>)
    requires
        is_path_below(n, w, a, b, k + 1),
        0 < i < w.len() - 1,
        w[i] == k,
        a != k,
    ensures
        is_path_below(n, u, a, k, k),
        path_strength(d, w) <= path_strength(d, u),
{
    let f = first_place(w, k, i);
    assert(f > 0);
    lemma_stretch_is_path(n, w, a, b, 0, f);
    lemma_strength_stretch(d, w, 0, f);
    let u = w.subrange(0, f + 1);
    assert forall|t: int| 0 < t < u.len() - 1 implies #[trigger] u[t] < k by {
        assert(u[t] == w[t]);
        assert(w[t] < k + 1);
    }
    u
}

/// The stretch of `w` from its last visit of `k`: a path through candidates
/// below `k`, and no weaker than `w`.
proof fn stretch_from_last(d: Seq<Seq<u32>>, n: int, w: Seq<int>, a: int, b: int, k: int, i: int) -> (v: Seq<int>)
    requires
        is_path_below(n, w, a, b, k + 1),
        0 < i < w.len() - 1,
        w[i] == k,
        b != k,
    ensures
        is_path_below(n, v, k, b, k),
        path_strength(d, w) <= path_strength(d, v),
{
    let len = w.len() as int;
    let l = last_place(w, k, i);
    assert(l < len - 1);
    lemma_stretch_is_path(n, w, a, b, l, len - 1);
    lemma_strength_stretch(d, w, l, len - 1);
    let v = w.subrange(l, len - 1 + 1);
    assert forall|t: int| 0 < t < v.len() - 1 implies #[trigger] v[t] < k by {
        assert(v[t] == w[l + t]);
        assert(w[l + t] < k + 1);
    }
    v
}

/// After the round through `k`, no path through candidates below `k + 1` is
/// stronger than its cell.
proof fn lemma_relax_round_bounds(d: Seq<Seq<u32>>, p: Seq<Seq<u32>>, k: int)
    requires
        strongest_below(d, p, k),
        0 <= k < d.len(),
    ensures
        forall|a: int, b: int, w: Seq<int>| #[trigger]
            is_path_below(d.len() as int, w, a, b, k + 1) && a != b ==> path_strength(d, w)
                <= #[trigger] relax_round(p, k)[a][b],
{
    let n = d.len() as int;
    let q = relax_round(p, k);
    assert forall|a: int, b: int, w: Seq<int>| #[trigger]
        is_path_below(n, w, a, b, k + 1) && a != b implies path_strength(d, w) <= #[trigger] q[a][b] by {
        let len = w.len() as int;
        if inner_below(w, k) {
            assert(is_path_below(n, w, a, b, k));
        } else {
            let i = choose|t: int| 0 < t < len - 1 && !(#[trigger] w[t] < k);
            assert(w[i] == k);
            if a != k {
                let u = stretch_to_first(d, n, w, a, b, k, i);
                assert(path_strength(d, u) <= p[a][k]);
            }
            if b != k {
                let v = stretch_from_last(d, n, w, a, b, k, i);
                assert(path_strength(d, v) <= p[k][b]);
            }
        }
    }
}

/// Once every candidate may be passed through, the strongest paths below
/// `n` are the strongest paths.
pub proof fn lemma_strongest_below_all(d: Seq<Seq<u32>>, p: Seq<Seq<u32>>)
    requires
        strongest_below(d, p, d.len() as int),
    ensures
        strongest_table(d, p),
{
    let n = d.len() as int;
    assert forall|a: int, b: int| 0 <= a < n && 0 <= b < n && a != b implies #[trigger] is_strongest(
        d,
        a,
        b,
        p[a][b],
    ) by {
        assert(reaches_below(d, a, b, n, p[a][b]));
        let w = choose|w: Seq<int>| #[trigger]
            is_path_below(n, w, a, b, n) && path_strength(d, w) == p[a][b];
        assert(is_path(n, w, a, b) && path_strength(d, w) == p[a][b]);
        assert forall|v: Seq<int>| #[trigger] is_path(n, v, a, b) implies path_strength(d, v) <= p[a][b] by {
            assert(is_path_below(n, v, a, b, n));
        }
    }
}

/// At most one strength stands for the strongest path.
pub proof fn lemma_strongest_unique(d: Seq<Seq<u32>>, a: int, b: int, s: u32, t: u32)
    requires
        is_strongest(d, a, b, s),
        is_strongest(d, a, b, t),
    ensures
        s == t,
{
    let n = d.len() as int;
    let u = choose|w: Seq<int>| #[trigger] is_path(n, w, a, b) && path_strength(d, w) == s;
    let v = choose|w: Seq<int>| #[trigger] is_path(n, w, a, b) && path_strength(d, w) == t;
}

/// A detour through `c` is never stronger than the strongest path.
pub proof fn lemma_detour(d: Seq<Seq<u32>>, p: Seq<Seq<u32>>, a: int, c: int, b: int)
    requires
        strongest_table(d, p),
        0 <= a < d.len(),
        0 <= b < d.len(),
        0 <= c < d.len(),
        a != b,
        a != c,
        c != b,
    ensures
        weaker(p[a][c], p[c][b]) <= p[a][b],
{
    let n = d.len() as int;
    assert(is_strongest(d, a, c, p[a][c]));
    assert(is_strongest(d, c, b, p[c][b]));
    assert(is_strongest(d, a, b, p[a][b]));
    let u = choose|w: Seq<int>| #[trigger] is_path(n, w, a, c) && path_strength(d, w) == p[a][c];
    let v = choose|w: Seq<int>| #[trigger] is_path(n, w, c, b) && path_strength(d, w) == p[c][b];
    lemma_join(d, n, u, v, a, c, b);
}

/// In a table of strongest paths no path beats the direct link.
proof fn lemma_direct_is_strongest(d: Seq<Seq<u32>>, p: Seq<Seq<u32>>, w: Seq<int>, a: int, b: int)
    requires
        strongest_table(d, p),
        is_path(p.len() as int, w, a, b),
        a != b,
    ensures
        path_strength(p, w) <= p[a][b],
    decreases w.len(),
{
    let n = p.len() as int;
    if w.len() > 2 {
        let r = w.drop_first();
        let c = w[1];
        assert(r[0] == c);
        if c == b {
            assert(path_strength(p, w) <= p[a][c]);
        } else {
            assert(is_path(n, r, c, b)) by {
                assert forall|t: int| 0 <= t < r.len() implies 0 <= #[trigger] r[t] < n by {
                    assert(r[t] == w[t + 1]);
                }
                assert forall|t: int| 0 <= t < r.len() - 1 implies #[trigger] r[t] != r[t + 1] by {
                    assert(r[t] == w[t + 1] && r[t + 1] == w[t + 1 + 1]);
                }
            }
            lemma_direct_is_strongest(d, p, r, c, b);
            assert(w[0] != w[0int + 1]);
            lemma_detour(d, p, a, c, b);
        }
    }
}

/// Solving a solved table changes nothing: the strongest paths through the
/// strongest paths of `d` are those paths themselves.
pub proof fn lemma_solve_twice(d: Seq<Seq<u32>>, p: Seq<Seq<u32>>, q: Seq<Seq<u32>>)
    requires
        strongest_table(d, p),
        strongest_table(p, q),
        forall|a: int| 0 <= a < p.len() ==> #[trigger] q[a][a] == p[a][a],
    ensures
        q == p,
{
    let n = p.len() as int;
    assert forall|a: int, b: int| 0 <= a < n && 0 <= b < n implies #[trigger] q[a][b] == p[a][b] by {
        if a != b {
            let w = seq![a, b];
            assert(is_path(n, w, a, b));
            assert forall|v: Seq<int>| #[trigger] is_path(n, v, a, b) implies path_strength(p, v) <= p[a][b] by {
                lemma_direct_is_strongest(d, p, v, a, b);
            }
            assert(is_strongest(p, a, b, p[a][b]));
            assert(is_strongest(p, a, b, q[a][b]));
            lemma_strongest_unique(p, a, b, p[a][b], q[a][b]);
        }
    }
    assert forall|a: int| 0 <= a < n implies #[trigger] q[a] =~= p[a] by {
        assert forall|b: int| 0 <= b < n implies q[a][b] == p[a][b] by {
            assert(q[a][b] == p[a][b]);
        }
    }
    assert(q =~= p);
}

/// With two candidates no path can pass through a third: the strongest
/// paths are the direct links.
pub proof fn lemma_two_candidates(d: Seq<Seq<u32>>, p: Seq<Seq<u32>>)
    requires
        strongest_table(d, p),
        d.len() == 2,
    ensures
        p[0][1] == d[0][1],
        p[1][0] == d[1][0],
{
    lemma_direct_only(d, p, 0, 1);
    lemma_direct_only(d, p, 1, 0);
}

proof fn lemma_direct_only(d: Seq<Seq<u32>>, p: Seq<Seq<u32>>, a: int, b: int)
    requires
        strongest_table(d, p),
        d.len() == 2,
        0 <= a < 2,
        0 <= b < 2,
        a != b,
    ensures
        p[a][b] == d[a][b],
{
    assert(is_strongest(d, a, b, p[a][b]));
    let w = choose|w: Seq<int>| #[trigger] is_path(2, w, a, b) && path_strength(d, w) == p[a][b];
    lemma_strength_links(d, w);
    assert(w[0] != w[0int + 1]);
    assert(path_strength(d, w) <= d[w[0]][w[0int + 1]]);
    let direct = seq![a, b];
    assert(is_path(2, direct, a, b));
    assert(path_strength(d, direct) <= p[a][b]);
}

/// `a` beats `b`: the strongest path from `a` over `b` is stronger than the
/// strongest path back.
pub open spec fn beats(p: Seq<Seq<u32>>, a: int, b: int) -> bool {
    p[a][b] > p[b][a]
}

/// Whoever beats a candidate that beats a third also beats the third.
pub open spec fn beats_transitive(p: Seq<Seq<u32>>) -> bool {
    forall|a: int, b: int, c: int|
        0 <= a < p.len() && 0 <= b < p.len() && 0 <= c < p.len() && #[trigger] beats(p, a, b)
            && #[trigger] beats(p, b, c) ==> beats(p, a, c)
}

/// Whoever beats a candidate that beats a third also beats the third, where
/// all three are listed in `ids`.
pub open spec fn beats_transitive_among(p: Seq<Seq<u32>>, ids: Seq<usize>) -> bool {
    forall|x: int, y: int, z: int|
        0 <= x < ids.len() && 0 <= y < ids.len() && 0 <= z < ids.len() && #[trigger] beats(
            p,
            ids[x] as int,
            ids[y] as int,
        ) && #[trigger] beats(p, ids[y] as int, ids[z] as int) ==> beats(p, ids[x] as int, ids[z] as int)
}

/// Transitivity among listed candidates, applied to three of them.
pub proof fn lemma_transitive_among(p: Seq<Seq<u32>>, ids: Seq<usize>, a: usize, b: usize, c: usize)
    requires
        beats_transitive_among(p, ids),
        ids.contains(a),
        ids.contains(b),
        ids.contains(c),
        beats(p, a as int, b as int),
        beats(p, b as int, c as int),
    ensures
        beats(p, a as int, c as int),
{
    let x = choose|x: int| 0 <= x < ids.len() && ids[x] == a;
    let y = choose|y: int| 0 <= y < ids.len() && ids[y] == b;
    let z = choose|z: int| 0 <= z < ids.len() && ids[z] == c;
    assert(beats(p, ids[x] as int, ids[y] as int) && beats(p, ids[y] as int, ids[z] as int));
}

/// Among strongest paths, beating is transitive: the strongest paths order
/// the candidates.
pub proof fn lemma_beats_transitive(d: Seq<Seq<u32>>, p: Seq<Seq<u32>>)
    requires
        strongest_table(d, p),
    ensures
        beats_transitive(p),
{
    let n = p.len() as int;
    assert forall|a: int, b: int, c: int|
        0 <= a < n && 0 <= b < n && 0 <= c < n && #[trigger] beats(p, a, b) && #[trigger] beats(
            p,
            b,
            c,
        ) implies beats(p, a, c) by {
        if a != c {
            lemma_detour(d, p, a, b, c);
            lemma_detour(d, p, c, a, b);
            lemma_detour(d, p, b, c, a);
        }
    }
}

/// Turn a table of direct wins into the table of strongest paths, in place.
///
/// Round `i` lets paths pass through candidate `i`; within a round only cells
/// off row `i` and column `i` change, so the round reads settled values.
pub fn widest_paths(paths: &mut Paths)
    requires
        old(paths).wf(),
    ensures
        final(paths).wf(),
        strongest_table(old(paths)@, final(paths)@),
        forall|a: int| 0 <= a < final(paths)@.len() ==> #[trigger] final(paths)@[a][a] == old(paths)@[a][a],
{
    let n = paths.candidate_count();
    let ghost d = paths@;
    proof {
        paths.lemma_square();
        lemma_strongest_below_start(d);
    }
    let mut i: usize = 0;
    while i < n
        invariant
            i <= n,
            d.len() == n,
            paths.wf(),
            paths@.len() == n,
            strongest_below(d, paths@, i as int),
            forall|a: int| 0 <= a < n ==> #[trigger] paths@[a][a] == d[a][a],
        decreases n - i,
    {
        let ghost start = paths@;
        let mut j: usize = 0;
        while j < n
            invariant
                i < n,
                j <= n,
                paths.wf(),
                paths@.len() == n,
                is_square(start),
                start.len() == n,
                is_square(paths@),
                forall|a: int, b: int|
                    0 <= a < n && 0 <= b < n ==> #[trigger] paths@[a][b] == if a < j {
                        relaxed(start, i as int, a, b)
                    } else {
                        start[a][b]
                    },
            decreases n - j,
        {
            if i != j {
                let mut k: usize = 0;
                while k < n
                    invariant
                        i < n,
                        j < n,
                        i != j,
                        k <= n,
                        paths.wf(),
                        paths@.len() == n,
                        is_square(start),
                        start.len() == n,
                        is_square(paths@),
                        forall|a: int, b: int|
                            0 <= a < n && 0 <= b < n ==> #[trigger] paths@[a][b] == if a < j || (a
                                == j && b < k) {
                                relaxed(start, i as int, a, b)
                            } else {
                                start[a][b]
                            },
                    decreases n - k,
                {
                    if i != k && j != k {
                        let j_k = paths.path(j, k);
                        let j_i = paths.path(j, i);
                        let i_k = paths.path(i, k);
                        let through = if j_i < i_k {
                            j_i
                        } else {
                            i_k
                        };
                        *paths.mut_path(j, k) = if j_k > through {
                            j_k
                        } else {
                            through
                        };
                    }
                    k = k + 1;
                }
            }
            j = j + 1;
        }
        proof {
            assert(paths@ =~~= relax_round(start, i as int));
            lemma_relax_round(d, start, i as int);
        }
        i = i + 1;
    }
    proof {
        lemma_strongest_below_all(d, paths@);
    }
}

} // verus!
