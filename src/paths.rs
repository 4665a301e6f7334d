//! Strengths of the strongest paths
//!
//! A square table of strengths, one for each ordered pair of distinct
//! candidates, kept as one dense vector in row order.
use vstd::arithmetic::div_mod::lemma_fundamental_div_mod_converse;
use vstd::prelude::*;

verus! {

/// Whether `m` is a square table: every row is as long as there are rows.
pub open spec fn is_square(m: Seq<Seq<u32>>) -> bool {
    forall|i: int| 0 <= i < m.len() ==> #[trigger] m[i].len() == m.len()
}

/// The square table of side `n` whose cells are `cells`, row after row.
pub open spec fn table_of(n: nat, cells: Seq<u32>) -> Seq<Seq<u32>> {
    Seq::new(n, |i: int| Seq::new(n, |j: int| cells[i * n + j]))
}

/// The `k`-th ordered pair `(to, from)` with `to != from` among `n`
/// candidates, the pairs sorted by `to` and then by `from`.
pub open spec fn pair_at(n: int, k: int) -> (int, int) {
    let to = k / (n - 1);
    let r = k % (n - 1);
    (to, if r < to { r } else { r + 1 })
}

/// Every `(to, from, strength)` of a table with `to != from`, sorted by `to`
/// and then by `from`.
pub open spec fn triples(m: Seq<Seq<u32>>) -> Seq<(usize, usize, u32)> {
    let n = m.len() as int;
    Seq::new(
        (n * (n - 1)) as nat,
        |k: int| (pair_at(n, k).0 as usize, pair_at(n, k).1 as usize, m[pair_at(n, k).0][pair_at(n, k).1]),
    )
}

/// Where the pair `(to, from)` stands among the pairs of `triples`; a pair
/// with `to == from` stands where the next one does.
pub open spec fn position(n: int, to: int, from: int) -> int {
    to * (n - 1) + if from > to { from - 1 } else { from }
}

proof fn lemma_cell_index(n: int, i: int, j: int)
    requires
        0 <= i < n,
        0 <= j < n,
    ensures
        0 <= i * n + j < n * n,
        i * n + n <= n * n,
{
    assert((i + 1) * n <= n * n) by (nonlinear_arith)
        requires
            0 <= i < n,
    ;
    assert((i + 1) * n == i * n + n) by (nonlinear_arith);
    assert(0 <= i * n) by (nonlinear_arith)
        requires
            0 <= i,
            0 <= n,
    ;
}

/// Where a cursor on a cell, or past the last row, stands.
proof fn lemma_position_bound(n: int, to: int, from: int)
    requires
        0 <= to <= n,
        to < n ==> 0 <= from < n,
        to == n ==> from == 0,
    ensures
        0 <= position(n, to, from) <= n * (n - 1),
{
    if to < n {
        assert(0 <= to * (n - 1) && to * (n - 1) + n - 1 <= n * (n - 1)) by (nonlinear_arith)
            requires
                0 <= to < n,
        ;
    }
}

proof fn lemma_cell_index_unique(n: int, a: int, b: int, i: int, j: int)
    requires
        0 <= a < n,
        0 <= b < n,
        0 <= i < n,
        0 <= j < n,
        a != i || b != j,
    ensures
        a * n + b != i * n + j,
{
    if a < i {
        assert(a * n + b < i * n + j) by (nonlinear_arith)
            requires
                a < i,
                0 <= b < n,
                0 <= j,
        ;
    } else if a > i {
        assert(a * n + b > i * n + j) by (nonlinear_arith)
            requires
                a > i,
                0 <= j < n,
                0 <= b,
        ;
    }
}

/// The table changes in one cell where its vector changes in one place.
proof fn lemma_table_update(n: nat, cells: Seq<u32>, i: int, j: int, v: u32)
    requires
        cells.len() == n * n,
        0 <= i < n,
        0 <= j < n,
    ensures
        table_of(n, cells.update(i * n + j, v)) == table_of(n, cells).update(
            i,
            table_of(n, cells)[i].update(j, v),
        ),
{
    let old_t = table_of(n, cells);
    let new_t = table_of(n, cells.update(i * n + j, v));
    let want = old_t.update(i, old_t[i].update(j, v));
    lemma_cell_index(n as int, i, j);
    assert forall|a: int| 0 <= a < n implies #[trigger] new_t[a] =~= want[a] by {
        assert forall|b: int| 0 <= b < n implies new_t[a][b] == want[a][b] by {
            lemma_cell_index(n as int, a, b);
            if a != i || b != j {
                lemma_cell_index_unique(n as int, a, b, i, j);
            }
        }
    }
    assert(new_t =~= want);
}

/// The position of a pair, and the pair at a position.
proof fn lemma_position(n: int, to: int, from: int)
    requires
        0 <= to < n,
        0 <= from < n,
        to != from,
    ensures
        0 <= position(n, to, from) < n * (n - 1),
        pair_at(n, position(n, to, from)) == (to, from),
{
    let r = if from > to { from - 1 } else { from };
    assert(0 <= r < n - 1);
    lemma_fundamental_div_mod_converse(position(n, to, from), n - 1, to, r);
    assert(0 <= to * (n - 1) && to * (n - 1) + n - 1 <= n * (n - 1)) by (nonlinear_arith)
        requires
            0 <= to < n,
    ;
}

/// Strengths of the strongest paths
pub struct Paths {
    candidates: usize,
    paths: Vec<u32>,
}

impl View for Paths {
    type V = Seq<Seq<u32>>;

    /// The table: `self@[to][from]` is the strength from `to` over `from`.
    closed spec fn view(&self) -> Seq<Seq<u32>> {
        table_of(self.candidates as nat, self.paths@)
    }
}

impl Paths {
    /// The dense vector holds one cell for each ordered pair.
    pub closed spec fn wf(&self) -> bool {
        &&& self.paths@.len() == self.candidates * self.candidates
        &&& self.candidates * self.candidates <= usize::MAX
    }

    /// Create storage for holding the strengths of strongest paths for N
    /// `candidates`, all strengths zero.
    pub fn new(candidates: usize) -> (r: Self)
        requires
            candidates * candidates <= usize::MAX,
        ensures
            r.wf(),
            r@.len() == candidates,
            is_square(r@),
            forall|i: int, j: int|
                0 <= i < candidates && 0 <= j < candidates ==> #[trigger] r@[i][j] == 0,
    {
        let len = candidates * candidates;
        let mut paths: Vec<u32> = Vec::new();
        let mut k: usize = 0;
        while k < len
            invariant
                k <= len,
                paths@.len() == k,
                forall|c: int| 0 <= c < k ==> #[trigger] paths@[c] == 0,
            decreases len - k,
        {
            paths.push(0);
            k = k + 1;
        }
        let r = Paths { candidates, paths };
        proof {
            assert forall|i: int, j: int|
                0 <= i < candidates && 0 <= j < candidates implies #[trigger] r@[i][j] == 0 by {
                lemma_cell_index(candidates as int, i, j);
            }
        }
        r
    }

    /// A well-formed table is square.
    pub proof fn lemma_square(&self)
        requires
            self.wf(),
        ensures
            is_square(self@),
    {
    }

    /// Number of candidates.
    pub fn candidate_count(&self) -> (r: usize)
        requires
            self.wf(),
        ensures
            r == self@.len(),
    {
        self.candidates
    }

    /// Return the strength of the strongest path between candidate `to` and
    /// candidate `from`: how strongly `to` is preferred over `from`.
    pub fn path(&self, to: usize, from: usize) -> (r: u32)
        requires
            self.wf(),
            to != from,
            to < self@.len(),
            from < self@.len(),
        ensures
            r == self@[to as int][from as int],
    {
        proof {
            lemma_cell_index(self.candidates as int, to as int, from as int);
        }
        self.paths[to * self.candidates + from]
    }

    /// The strength from `to` over `from`, to be written in place.
    pub fn mut_path(&mut self, to: usize, from: usize) -> (r: &mut u32)
        requires
            old(self).wf(),
            to != from,
            to < old(self)@.len(),
            from < old(self)@.len(),
        ensures
            *r == old(self)@[to as int][from as int],
            final(self).wf(),
            final(self)@ == old(self)@.update(
                to as int,
                old(self)@[to as int].update(from as int, *final(r)),
            ),
    {
        proof {
            lemma_cell_index(self.candidates as int, to as int, from as int);
        }
        let n = self.candidates;
        let cell = &mut self.paths[to * n + from];
        proof {
            lemma_table_update(n as nat, old(self).paths@, to as int, from as int, *final(cell));
        }
        cell
    }

    /// Iterator over the strengths of all paths.
    ///
    /// It yields `(to, from, strength)` for each pair with `to != from`,
    /// sorted ascending by `to` and then by `from`.
    pub fn iter(&self) -> (r: PathIter<'_>)
        requires
            self.wf(),
        ensures
            r.wf(),
            r.remaining() == triples(self@),
    {
        PathIter::new(self)
    }
}

/// Iterator over `Paths`
pub struct PathIter<'a> {
    paths: &'a Paths,
    to: usize,
    from: usize,
    left: usize,
}

impl<'a> PathIter<'a> {
    /// A cursor on the first cell of `paths`, with all pairs still to come.
    fn new(paths: &'a Paths) -> (r: PathIter<'a>)
        requires
            paths.wf(),
        ensures
            r.wf(),
            r.remaining() == triples(paths@),
    {
        let n = paths.candidates;
        proof {
            assert(n * (n - 1) <= n * n) by (nonlinear_arith);
        }
        let left = if n == 0 {
            0
        } else {
            n * (n - 1)
        };
        let r = PathIter { paths, to: 0, from: 0, left };
        proof {
            assert(triples(paths@).skip(0) =~= triples(paths@));
        }
        r
    }

    /// The cursor stands on a cell of the table, or past its last row.
    closed spec fn cursor_ok(&self) -> bool {
        let n = self.paths.candidates as int;
        &&& self.paths.wf()
        &&& self.to <= n
        &&& self.to < n ==> self.from < n
        &&& self.to == n ==> self.from == 0
    }

    /// The cursor is in place, and `left` counts what is still to come.
    pub closed spec fn wf(&self) -> bool {
        let n = self.paths.candidates as int;
        &&& self.cursor_ok()
        &&& self.left == n * (n - 1) - position(n, self.to as int, self.from as int)
    }

    /// What is still to come, in order.
    pub closed spec fn remaining(&self) -> Seq<(usize, usize, u32)> {
        let n = self.paths.candidates as int;
        triples(self.paths@).skip(position(n, self.to as int, self.from as int))
    }

    /// Move the cursor to the next cell in row order.
    fn increase_count(&mut self)
        requires
            old(self).cursor_ok(),
            old(self).to < old(self).paths.candidates,
        ensures
            final(self).cursor_ok(),
            final(self).paths == old(self).paths,
            final(self).left == old(self).left,
            old(self).from + 1 == old(self).paths.candidates ==> final(self).to == old(self).to + 1
                && final(self).from == 0,
            old(self).from + 1 != old(self).paths.candidates ==> final(self).to == old(self).to
                && final(self).from == old(self).from + 1,
            ({
                let n = old(self).paths.candidates as int;
                let p = position(n, old(self).to as int, old(self).from as int);
                let q = position(n, final(self).to as int, final(self).from as int);
                if old(self).to == old(self).from {
                    q == p
                } else {
                    q == p + 1
                }
            }),
            old(self).to == old(self).from ==> final(self).to != final(self).from,
    {
        let n = self.paths.candidates;
        if self.from + 1 == n {
            self.to = self.to + 1;
            self.from = 0;
        } else {
            self.from = self.from + 1;
        }
        proof {
            let to = old(self).to as int;
            let n = n as int;
            assert((to + 1) * (n - 1) == to * (n - 1) + n - 1) by (nonlinear_arith);
        }
    }

    /// The next `(to, from, strength)`, or `None` once all have been yielded.
    pub fn next(&mut self) -> (r: Option<(usize, usize, u32)>)
        requires
            old(self).wf(),
        ensures
            final(self).wf(),
            old(self).remaining().len() == 0 ==> r is None && final(self).remaining().len() == 0,
            old(self).remaining().len() > 0 ==> r == Some(old(self).remaining()[0])
                && final(self).remaining() == old(self).remaining().drop_first(),
    {
        let n = self.paths.candidates;
        let ghost all = triples(self.paths@);
        proof {
            lemma_position_bound(n as int, self.to as int, self.from as int);
            assert(all.len() == n * (n - 1));
        }
        if self.to < n && self.to == self.from {
            self.increase_count();
        }
        let ghost p = position(n as int, self.to as int, self.from as int);
        proof {
            lemma_position_bound(n as int, self.to as int, self.from as int);
            assert(old(self).remaining() =~= all.skip(p));
        }
        if self.to < n {
            let to = self.to;
            let from = self.from;
            let strength = self.paths.path(to, from);
            proof {
                lemma_position(n as int, to as int, from as int);
            }
            self.increase_count();
            self.left = self.left - 1;
            proof {
                assert(all[p] == (to, from, strength));
                assert(self.remaining() =~= old(self).remaining().drop_first());
            }
            Some((to, from, strength))
        } else {
            None
        }
    }

    /// How many items are still to come, as a lower and an upper bound.
    pub fn size_hint(&self) -> (r: (usize, Option<usize>))
        requires
            self.wf(),
        ensures
            r.0 == self.remaining().len(),
            r.1 == Some(r.0),
    {
        proof {
            let n = self.paths.candidates as int;
            lemma_position_bound(n, self.to as int, self.from as int);
        }
        (self.left, Some(self.left))
    }

    /// How many items are still to come.
    pub fn len(&self) -> (r: usize)
        requires
            self.wf(),
        ensures
            r == self.remaining().len(),
    {
        proof {
            let n = self.paths.candidates as int;
            lemma_position_bound(n, self.to as int, self.from as int);
        }
        self.left
    }
}

} // verus!
