//! Elections
//!
//! An election holds the candidates and the ballots cast so far, and turns
//! them into a result: the table of strongest paths and the candidates
//! ordered by it.
use crate::ballot::Ballot;
use crate::candidate::Candidate;
use crate::paths::{is_square, Paths};
use crate::rank::{Rank, SimpleRank};
use crate::widest::{
    beats,
    beats_transitive_among,
    lemma_beats_transitive,
    lemma_transitive_among,
    lemma_detour,
    strongest_table,
    weaker,
    widest_paths,
};
use std::cmp::Ordering;
use vstd::prelude::*;

verus! {

/// Ranks of this type compare as their specification says, and preference
/// goes one way at most: of two ranks at most one is preferred to the other,
/// and no rank is preferred to itself.
pub open spec fn compares<R: PartialOrd>() -> bool {
    &&& <R as vstd::std_specs::cmp::PartialOrdSpec>::obeys_partial_cmp_spec()
    &&& forall|a: R, b: R| #[trigger] prefers(a, b) ==> !prefers(b, a)
}

/// Simple ranks compare by preference as ranks must.
pub proof fn lemma_simple_rank_compares()
    ensures
        compares::<SimpleRank>(),
{
    assert forall|a: SimpleRank, b: SimpleRank| #[trigger] prefers(a, b) implies !prefers(b, a) by {
        crate::rank::lemma_rank_order(a, b);
        crate::rank::lemma_rank_order(b, a);
    }
}

/// A voter who gave the ranks `a` and `b` prefers the first to the second.
pub open spec fn prefers<R: PartialOrd>(a: R, b: R) -> bool {
    <R as vstd::std_specs::cmp::PartialOrdSpec>::partial_cmp_spec(&a, &b) == Some(
        Ordering::Greater,
    )
}

/// How many of `ballots` prefer candidate `i` to candidate `j`.
pub open spec fn preference_count<R: PartialOrd>(ballots: Seq<Seq<R>>, i: int, j: int) -> nat
    decreases ballots.len(),
{
    if ballots.len() == 0 {
        0
    } else {
        preference_count(ballots.drop_last(), i, j) + if prefers(ballots.last()[i], ballots.last()[j]) {
            1nat
        } else {
            0nat
        }
    }
}

/// The direct wins among `n` candidates: `i` over `j` by the number of voters
/// who prefer `i`, where more prefer `i` to `j` than `j` to `i`; else zero.
pub open spec fn direct_wins<R: PartialOrd>(ballots: Seq<Seq<R>>, n: nat) -> Seq<Seq<u32>> {
    Seq::new(
        n,
        |i: int|
            Seq::new(
                n,
                |j: int|
                    if i != j && preference_count(ballots, i, j) > preference_count(ballots, j, i) {
                        preference_count(ballots, i, j) as u32
                    } else {
                        0
                    },
            ),
    )
}

/// Voters who prefer `i` to `j` and voters who prefer `j` to `i` are different
/// voters, and nobody prefers a candidate to itself.
pub proof fn lemma_preference_counts_bounded<R: PartialOrd>(ballots: Seq<Seq<R>>, i: int, j: int)
    requires
        compares::<R>(),
    ensures
        preference_count(ballots, i, j) + preference_count(ballots, j, i) <= ballots.len(),
        preference_count(ballots, i, i) == 0,
    decreases ballots.len(),
{
    if ballots.len() > 0 {
        lemma_preference_counts_bounded(ballots.drop_last(), i, j);
        let b = ballots.last();
        assert(prefers(b[i], b[j]) ==> !prefers(b[j], b[i]));
        assert(prefers(b[i], b[i]) ==> !prefers(b[i], b[i]));
    }
}

/// Of two candidates at most one has a direct win over the other; on a tie
/// neither has.
pub proof fn lemma_direct_wins_one_way<R: PartialOrd>(ballots: Seq<Seq<R>>, n: nat, i: int, j: int)
    requires
        0 <= i < n,
        0 <= j < n,
        i != j,
    ensures
        direct_wins(ballots, n)[i][j] == 0 || direct_wins(ballots, n)[j][i] == 0,
        preference_count(ballots, i, j) == preference_count(ballots, j, i) ==> direct_wins(
            ballots,
            n,
        )[i][j] == 0 && direct_wins(ballots, n)[j][i] == 0,
{
}

/// The candidates stand at their own positions, under distinct names.
pub open spec fn candidates_in_place(c: Seq<Candidate>) -> bool {
    &&& forall|k: int| 0 <= k < c.len() ==> (#[trigger] c[k]).spec_id() == k
    &&& forall|a: int, b: int|
        0 <= a < c.len() && 0 <= b < c.len() && a != b ==> (#[trigger] c[a]).spec_name() != (
        #[trigger] c[b]).spec_name()
}

/// Election
pub struct Election<R = SimpleRank> {
    candidates: Vec<Candidate>,
    ballots: Vec<Ballot<R>>,
}

impl<R> Election<R> {
    /// The candidates, by position.
    pub closed spec fn candidate_list(&self) -> Seq<Candidate> {
        self.candidates@
    }

    /// The ballots, in the order they were created.
    pub closed spec fn ballot_list(&self) -> Seq<Ballot<R>> {
        self.ballots@
    }

    /// The ranks of each ballot.
    pub open spec fn ballot_ranks(&self) -> Seq<Seq<R>> {
        Seq::new(self.ballot_list().len(), |k: int| self.ballot_list()[k]@)
    }

    /// Candidates in place, and one rank per candidate on each ballot.
    pub open spec fn wf(&self) -> bool {
        &&& candidates_in_place(self.candidate_list())
        &&& forall|k: int|
            0 <= k < self.ballot_list().len() ==> (#[trigger] self.ballot_list()[k])@.len()
                == self.candidate_list().len()
    }

    /// Create new election
    pub(crate) fn new(candidates: Vec<Candidate>) -> (r: Self)
        requires
            candidates_in_place(candidates@),
        ensures
            r.wf(),
            r.candidate_list() == candidates@,
            r.ballot_list().len() == 0,
    {
        Election { candidates, ballots: Vec::new() }
    }

    /// Get all candidates
    pub fn candidates(&self) -> (r: &[Candidate])
        ensures
            r@ == self.candidate_list(),
    {
        self.candidates.as_slice()
    }

    /// Get all `Ballot`s
    pub fn ballots(&self) -> (r: &[Ballot<R>])
        ensures
            r@ == self.ballot_list(),
    {
        self.ballots.as_slice()
    }

    /// Create a new `Ballot`, none of its candidates ranked, and hand it out
    /// to be filled in.
    pub fn new_ballot(&mut self) -> (b: &mut Ballot<R>)
        where
            R: Rank,
        ensures
            b@.len() == old(self).candidate_list().len(),
            b.spec_name() is None,
            forall|k: int| 0 <= k < b@.len() ==> crate::ballot::is_unranked(#[trigger] b@[k]),
            final(self).candidate_list() == old(self).candidate_list(),
            final(self).ballot_list() == old(self).ballot_list().push(*final(b)),
    {
        self.ballots.push(Ballot::new(self.candidates.len()));
        let last = self.ballots.len() - 1;
        let b = &mut self.ballots[last];
        proof {
            assert(old(self).ballots@.push(*b).update(last as int, *final(b)) =~= old(self).ballots@.push(*final(b)));
        }
        b
    }

    /// Number of voters that prefer candidate `i` over `j`.
    fn prefered_by(&self, i: usize, j: usize) -> (r: u32)
        where
            R: Rank,
        requires
            self.wf(),
            compares::<R>(),
            i < self.candidate_list().len(),
            j < self.candidate_list().len(),
            self.ballot_list().len() <= u32::MAX,
        ensures
            r == preference_count(self.ballot_ranks(), i as int, j as int),
            r + preference_count(self.ballot_ranks(), j as int, i as int) <= self.ballot_list().len(),
            i == j ==> r == 0,
    {
        let ghost all = self.ballot_ranks();
        let mut count: u32 = 0;
        let mut k: usize = 0;
        while k < self.ballots.len()
            invariant
                self.wf(),
                compares::<R>(),
                i < self.candidate_list().len(),
                j < self.candidate_list().len(),
                self.ballot_list().len() <= u32::MAX,
                all == self.ballot_ranks(),
                k <= self.ballots@.len(),
                count <= k,
                count == preference_count(all.subrange(0, k as int), i as int, j as int),
            decreases self.ballots@.len() - k,
        {
            let b = &self.ballots[k];
            proof {
                assert(all.subrange(0, k + 1).drop_last() =~= all.subrange(0, k as int));
                assert(all[k as int] == b@);
            }
            if *b.get_rank(i) > *b.get_rank(j) {
                count = count + 1;
            }
            k = k + 1;
        }
        proof {
            assert(all.subrange(0, k as int) =~= all);
            lemma_preference_counts_bounded(all, i as int, j as int);
        }
        count
    }

    /// Find strongest paths for all candidates: tally the direct wins, then
    /// let paths pass through every candidate.
    pub fn find_strongest_paths(&self) -> (r: Paths)
        where
            R: Rank,
        requires
            self.wf(),
            compares::<R>(),
            self.candidate_list().len() * self.candidate_list().len() <= usize::MAX,
            self.ballot_list().len() <= u32::MAX,
        ensures
            r.wf(),
            strongest_table(direct_wins(self.ballot_ranks(), self.candidate_list().len()), r@),
            forall|i: int, j: int, k: int|
                0 <= i < r@.len() && 0 <= j < r@.len() && 0 <= k < r@.len() && i != j && j != k
                    && i != k ==> weaker(#[trigger] r@[j][i], #[trigger] r@[i][k]) <= r@[j][k],
    {
        let n = self.candidates.len();
        let ghost d = direct_wins(self.ballot_ranks(), n as nat);
        let mut paths = Paths::new(n);
        let mut i: usize = 0;
        while i < n
            invariant
                self.wf(),
                compares::<R>(),
                n == self.candidate_list().len(),
                self.ballot_list().len() <= u32::MAX,
                d == direct_wins(self.ballot_ranks(), n as nat),
                i <= n,
                paths.wf(),
                paths@.len() == n,
                is_square(paths@),
                forall|a: int, b: int|
                    0 <= a < n && 0 <= b < n ==> #[trigger] paths@[a][b] == if a < i {
                        d[a][b]
                    } else {
                        0
                    },
            decreases n - i,
        {
            let mut j: usize = 0;
            while j < n
                invariant
                    self.wf(),
                    compares::<R>(),
                    n == self.candidate_list().len(),
                    self.ballot_list().len() <= u32::MAX,
                    d == direct_wins(self.ballot_ranks(), n as nat),
                    i < n,
                    j <= n,
                    paths.wf(),
                    paths@.len() == n,
                    is_square(paths@),
                    forall|a: int, b: int|
                        0 <= a < n && 0 <= b < n ==> #[trigger] paths@[a][b] == if a < i || (a == i
                            && b < j) {
                            d[a][b]
                        } else {
                            0
                        },
                decreases n - j,
            {
                if i != j {
                    let preferring_i = self.prefered_by(i, j);
                    let preferring_j = self.prefered_by(j, i);
                    proof {
                        assert(d[i as int][j as int] == if preferring_i > preferring_j {
                            preferring_i
                        } else {
                            0
                        });
                    }
                    if preferring_i > preferring_j {
                        *paths.mut_path(i, j) = preferring_i;
                    }
                } else {
                    proof {
                        assert(d[i as int][j as int] == 0);
                    }
                }
                proof {
                    paths.lemma_square();
                }
                j = j + 1;
            }
            i = i + 1;
        }
        proof {
            paths.lemma_square();
            assert(paths@ =~~= d);
        }
        widest_paths(&mut paths);
        proof {
            assert forall|i: int, j: int, k: int|
                0 <= i < n && 0 <= j < n && 0 <= k < n && i != j && j != k && i != k implies weaker(
                    #[trigger] paths@[j][i],
                    #[trigger] paths@[i][k],
                ) <= paths@[j][k] by {
                lemma_detour(d, paths@, j, i, k);
            }
        }
        paths
    }

    /// Order `candidates` so that no candidate comes after one it beats.
    ///
    /// Each place in turn takes the candidate that nobody after it beats,
    /// exchanging it with whoever beats the current holder. Where beating is
    /// not transitive among the candidates given, the order is still a
    /// rearrangement, but carries no such promise.
    pub fn rank_candidates(candidates: &mut Vec<usize>, paths: &Paths)
        requires
            paths.wf(),
            forall|k: int| 0 <= k < old(candidates)@.len() ==> #[trigger] old(candidates)@[k] < paths@.len(),
            forall|a: int, b: int|
                0 <= a < old(candidates)@.len() && 0 <= b < old(candidates)@.len() && a != b
                    ==> #[trigger] old(candidates)@[a] != #[trigger] old(candidates)@[b],
        ensures
            final(candidates)@.len() == old(candidates)@.len(),
            forall|k: int| 0 <= k < final(candidates)@.len() ==> #[trigger] final(candidates)@[k] < paths@.len(),
            forall|a: int, b: int|
                0 <= a < final(candidates)@.len() && 0 <= b < final(candidates)@.len() && a != b
                    ==> #[trigger] final(candidates)@[a] != #[trigger] final(candidates)@[b],
            forall|x: usize| old(candidates)@.contains(x) ==> final(candidates)@.contains(x),
            beats_transitive_among(paths@, old(candidates)@) ==> forall|a: int, b: int|
                0 <= a < b < final(candidates)@.len() ==> !beats(
                    paths@,
                    #[trigger] final(candidates)@[b] as int,
                    #[trigger] final(candidates)@[a] as int,
                ),
    {
        let ghost orig = candidates@;
        let ghost p = paths@;
        let len = candidates.len();
        let mut i: usize = 0;
        while i < len
            invariant
                paths.wf(),
                p == paths@,
                len == candidates@.len(),
                i <= len,
                forall|k: int| 0 <= k < len ==> #[trigger] candidates@[k] < p.len(),
                forall|a: int, b: int|
                    0 <= a < len && 0 <= b < len && a != b ==> #[trigger] candidates@[a]
                        != #[trigger] candidates@[b],
                forall|x: usize| orig.contains(x) ==> candidates@.contains(x),
                forall|k: int| 0 <= k < len ==> orig.contains(#[trigger] candidates@[k]),
                beats_transitive_among(p, orig) ==> forall|a: int, b: int|
                    0 <= a < i && a < b < len ==> !beats(
                        p,
                        #[trigger] candidates@[b] as int,
                        #[trigger] candidates@[a] as int,
                    ),
            decreases len - i,
        {
            let mut j: usize = i + 1;
            while j < len
                invariant
                    paths.wf(),
                    p == paths@,
                    len == candidates@.len(),
                    i < len,
                    i < j <= len,
                    forall|k: int| 0 <= k < len ==> #[trigger] candidates@[k] < p.len(),
                    forall|a: int, b: int|
                        0 <= a < len && 0 <= b < len && a != b ==> #[trigger] candidates@[a]
                            != #[trigger] candidates@[b],
                    forall|x: usize| orig.contains(x) ==> candidates@.contains(x),
                    forall|k: int| 0 <= k < len ==> orig.contains(#[trigger] candidates@[k]),
                forall|k: int| 0 <= k < len ==> orig.contains(#[trigger] candidates@[k]),
                    beats_transitive_among(p, orig) ==> forall|a: int, b: int|
                        0 <= a < i && a < b < len ==> !beats(
                            p,
                            #[trigger] candidates@[b] as int,
                            #[trigger] candidates@[a] as int,
                        ),
                    beats_transitive_among(p, orig) ==> forall|b: int|
                        i < b < j ==> !beats(p, #[trigger] candidates@[b] as int, candidates@[i as int] as int),
                decreases len - j,
            {
                let c1 = candidates[i];
                let c2 = candidates[j];
                if paths.path(c1, c2) < paths.path(c2, c1) {
                    let ghost before = candidates@;
                    candidates.set(i, c2);
                    candidates.set(j, c1);
                    proof {
                        let after = candidates@;
                        assert(forall|k: int| 0 <= k < len && k != i && k != j ==> after[k] == before[k]);
                        assert(after[i as int] == before[j as int] && after[j as int] == before[i as int]);
                        assert forall|k: int| 0 <= k < len implies orig.contains(#[trigger] after[k]) by {
                            if k == i {
                                assert(orig.contains(before[j as int]));
                            } else if k == j {
                                assert(orig.contains(before[i as int]));
                            } else {
                                assert(orig.contains(before[k]));
                            }
                        }
                        assert forall|x: usize| orig.contains(x) implies after.contains(x) by {
                            let u = choose|u: int| 0 <= u < len && before[u] == x;
                            if u == i {
                                assert(after[j as int] == x);
                            } else if u == j {
                                assert(after[i as int] == x);
                            } else {
                                assert(after[u] == x);
                            }
                        }
                        if beats_transitive_among(p, orig) {
                            assert forall|a: int, b: int|
                                0 <= a < i && a < b < len implies !beats(
                                    p,
                                    #[trigger] after[b] as int,
                                    #[trigger] after[a] as int,
                                ) by {
                                if b == i {
                                    assert(!beats(p, before[j as int] as int, before[a] as int));
                                } else if b == j {
                                    assert(!beats(p, before[i as int] as int, before[a] as int));
                                } else {
                                    assert(!beats(p, before[b] as int, before[a] as int));
                                }
                            }
                            assert forall|b: int| i < b < j + 1 implies !beats(
                                p,
                                #[trigger] after[b] as int,
                                after[i as int] as int,
                            ) by {
                                if b < j {
                                    assert(!beats(p, before[b] as int, before[i as int] as int));
                                    assert(orig.contains(before[b]));
                                    assert(orig.contains(c1) && orig.contains(c2));
                                    if beats(p, before[b] as int, c2 as int) {
                                        lemma_transitive_among(p, orig, before[b], c2, c1);
                                    }
                                }
                            }
                        }
                    }
                }
                j = j + 1;
            }
            i = i + 1;
        }
    }

    /// Get result of election: the strongest paths between all candidates,
    /// and the candidates ranked by them, winner first.
    pub fn result(&self) -> (r: ElectionResult)
        where
            R: Rank,
        requires
            self.wf(),
            compares::<R>(),
            self.candidate_list().len() * self.candidate_list().len() <= usize::MAX,
            self.ballot_list().len() <= u32::MAX,
        ensures
            r.spec_paths().wf(),
            strongest_table(direct_wins(self.ballot_ranks(), self.candidate_list().len()), r.spec_paths()@),
            r.ranked().len() == self.candidate_list().len(),
            forall|k: int| 0 <= k < r.ranked().len() ==> {
                &&& (#[trigger] r.ranked()[k]).spec_id() < self.candidate_list().len()
                &&& r.ranked()[k] == self.candidate_list()[r.ranked()[k].spec_id() as int]
            },
            forall|a: int, b: int|
                0 <= a < r.ranked().len() && 0 <= b < r.ranked().len() && a != b
                    ==> (#[trigger] r.ranked()[a]).spec_id() != (#[trigger] r.ranked()[b]).spec_id(),
            forall|a: int, b: int|
                0 <= a < r.ranked().len() && 0 <= b < r.ranked().len() && beats(
                    r.spec_paths()@,
                    (#[trigger] r.ranked()[a]).spec_id() as int,
                    (#[trigger] r.ranked()[b]).spec_id() as int,
                ) ==> a < b,
    {
        let n = self.candidates.len();
        let paths = self.find_strongest_paths();
        proof {
            lemma_beats_transitive(direct_wins(self.ballot_ranks(), n as nat), paths@);
        }
        let mut ranking: Vec<usize> = Vec::new();
        let mut k: usize = 0;
        while k < n
            invariant
                k <= n,
                ranking@.len() == k,
                forall|t: int| 0 <= t < k ==> #[trigger] ranking@[t] == t,
            decreases n - k,
        {
            ranking.push(k);
            k = k + 1;
        }
        proof {
            assert(beats_transitive_among(paths@, ranking@));
        }
        Self::rank_candidates(&mut ranking, &paths);
        let mut ranked_candidates: Vec<Candidate> = Vec::new();
        let mut k: usize = 0;
        while k < n
            invariant
                self.wf(),
                n == self.candidate_list().len(),
                n == self.candidates@.len(),
                ranking@.len() == n,
                forall|t: int| 0 <= t < n ==> #[trigger] ranking@[t] < n,
                k <= n,
                ranked_candidates@.len() == k,
                forall|t: int| 0 <= t < k ==> #[trigger] ranked_candidates@[t] == self.candidate_list()[ranking@[t] as int],
            decreases n - k,
        {
            ranked_candidates.push(self.candidates[ranking[k]].clone());
            k = k + 1;
        }
        let r = ElectionResult { ranked_candidates, paths };
        proof {
            assert forall|t: int| 0 <= t < n implies (#[trigger] r.ranked()[t]).spec_id() == ranking@[t] by {
                assert(self.candidate_list()[ranking@[t] as int].spec_id() == ranking@[t]);
            }
            assert forall|a: int, b: int|
                0 <= a < n && 0 <= b < n && beats(
                    r.spec_paths()@,
                    (#[trigger] r.ranked()[a]).spec_id() as int,
                    (#[trigger] r.ranked()[b]).spec_id() as int,
                ) implies a < b by {
                if b < a {
                    assert(!beats(paths@, ranking@[a] as int, ranking@[b] as int));
                }
            }
        }
        r
    }
}

/// Result of an `Election`
pub struct ElectionResult {
    ranked_candidates: Vec<Candidate>,
    paths: Paths,
}

impl ElectionResult {
    /// The candidates, winner first.
    pub closed spec fn ranked(&self) -> Seq<Candidate> {
        self.ranked_candidates@
    }

    /// The strongest paths.
    pub closed spec fn spec_paths(&self) -> Paths {
        self.paths
    }

    /// Candidates ranked according to the Schulze method, starting with the
    /// winner.
    pub fn ranked_candidates(&self) -> (r: &[Candidate])
        ensures
            r@ == self.ranked(),
    {
        self.ranked_candidates.as_slice()
    }

    /// Get strongest paths between all candidates.
    pub fn paths(&self) -> (r: &Paths)
        ensures
            *r == self.spec_paths(),
    {
        &self.paths
    }
}

} // verus!
