//! Ballots
use crate::rank::{Rank, SimpleRank};
use vstd::prelude::*;

verus! {

/// A bulk assignment of ranks did not give exactly one rank per candidate.
#[derive(Clone, Copy, Debug, PartialEq, Eq, Structural)]
pub struct RankCountMismatch {
    /// How many candidates the ballot has.
    pub candidates: usize,
    /// How many ranks were given.
    pub ranks: usize,
}

/// A ballot: one rank per candidate, indexed by the candidate's position,
/// and optionally the name of the voter.
pub struct Ballot<R = SimpleRank> {
    name: Option<String>,
    ranks: Vec<R>,
}

impl<R> View for Ballot<R> {
    type V = Seq<R>;

    /// The ranks, by candidate position.
    closed spec fn view(&self) -> Seq<R> {
        self.ranks@
    }
}

/// Converting a `T` into an `R` gives what its specification states.
pub open spec fn converts<T: Into<R>, R>() -> bool {
    <T as vstd::std_specs::convert::IntoSpec<R>>::obeys_into_spec()
}

/// What converting `t` into an `R` gives.
pub open spec fn converted<T: Into<R>, R>(t: T) -> R {
    <T as vstd::std_specs::convert::IntoSpec<R>>::into_spec(t)
}

/// `r` is what a rank not yet given starts as.
pub open spec fn is_unranked<R: Default>(r: R) -> bool {
    call_ensures(R::default, (), r)
}

impl<R> Ballot<R> {
    /// The name of the voter, if one is set.
    pub closed spec fn spec_name(&self) -> Option<Seq<char>> {
        match self.name {
            Some(s) => Some(s@),
            None => None,
        }
    }

    /// Create a new ballot for N `candidates`, none of them ranked.
    pub(crate) fn new(candidates: usize) -> (r: Self)
        where
            R: Rank,
        ensures
            r@.len() == candidates,
            r.spec_name() is None,
            forall|k: int| 0 <= k < candidates ==> is_unranked(#[trigger] r@[k]),
    {
        let mut ranks: Vec<R> = Vec::new();
        let mut k: usize = 0;
        while k < candidates
            invariant
                k <= candidates,
                ranks@.len() == k,
                forall|t: int| 0 <= t < k ==> is_unranked(#[trigger] ranks@[t]),
            decreases candidates - k,
        {
            ranks.push(R::default());
            k = k + 1;
        }
        Ballot { name: None, ranks }
    }

    /// Set a name for the ballot (i.e. the voters name).
    pub fn set_name(&mut self, name: &str) -> (r: &mut Self)
        ensures
            r.spec_name() == Some(name@),
            r@ == old(self)@,
            *final(self) == *final(r),
    {
        self.name = Some(name.to_owned());
        self
    }

    /// Unset the name of the ballot.
    pub fn unset_name(&mut self) -> (r: &mut Self)
        ensures
            r.spec_name() is None,
            r@ == old(self)@,
            *final(self) == *final(r),
    {
        self.name = None;
        self
    }

    /// Retrieve the name of the ballot.
    pub fn name(&self) -> (r: Option<&str>)
        ensures
            r is Some <==> self.spec_name() is Some,
            r is Some ==> r->0@ == self.spec_name()->0,
    {
        match &self.name {
            Some(s) => Some(s.as_str()),
            None => None,
        }
    }

    /// Rank candidate with `id`.
    pub fn rank<T>(&mut self, id: usize, rank: T) -> (r: &mut Self)
        where
            R: Rank,
            T: Into<R>,
        requires
            id < old(self)@.len(),
        ensures
            r.spec_name() == old(self).spec_name(),
            r@.len() == old(self)@.len(),
            forall|k: int| 0 <= k < r@.len() && k != id ==> #[trigger] r@[k] == old(self)@[k],
            converts::<T, R>() ==> r@ == old(self)@.update(id as int, converted::<T, R>(rank)),
            *final(self) == *final(r),
    {
        let value: R = rank.into();
        self.ranks.set(id, value);
        self
    }

    /// Set ranks for all candidates at once.
    ///
    /// Fails, and leaves the ballot as it was, unless `ranks` holds exactly one
    /// rank per candidate.
    pub fn rank_all<I>(&mut self, ranks: &[I]) -> (r: Result<&mut Self, RankCountMismatch>)
        where
            R: Rank,
            I: Into<R> + Copy,
        ensures
            ranks@.len() != old(self)@.len() <==> r is Err,
            r is Err ==> r->Err_0 == (RankCountMismatch {
                candidates: old(self)@.len() as usize,
                ranks: ranks@.len() as usize,
            }) && *final(self) == *old(self),
            r is Ok ==> {
                &&& r->Ok_0.spec_name() == old(self).spec_name()
                &&& r->Ok_0@.len() == old(self)@.len()
                &&& converts::<I, R>() ==> r->Ok_0@ == ranks@.map_values(|i: I| converted::<I, R>(i))
                &&& *final(self) == *final(r->Ok_0)
            },
    {
        let len = self.ranks.len();
        if ranks.len() != len {
            return Err(RankCountMismatch { candidates: len, ranks: ranks.len() });
        }
        let mut k: usize = 0;
        while k < len
            invariant
                len == ranks@.len(),
                k <= len,
                self.ranks@.len() == len,
                self.name == old(self).name,
                converts::<I, R>() ==> forall|t: int| 0 <= t < k ==> #[trigger] self.ranks@[t] == converted::<I, R>(ranks@[t]),
            decreases len - k,
        {
            let value: R = ranks[k].into();
            self.ranks.set(k, value);
            k = k + 1;
        }
        proof {
            if converts::<I, R>() {
                assert(self.ranks@ =~= ranks@.map_values(|i: I| converted::<I, R>(i)));
            }
        }
        Ok(self)
    }

    /// Get rank for candidate with `id`.
    pub fn get_rank(&self, id: usize) -> (r: &R)
        requires
            id < self@.len(),
        ensures
            *r == self@[id as int],
    {
        &self.ranks[id]
    }

    /// Retrieve ranks for all candidates, by candidate position.
    pub fn ranks(&self) -> (r: &[R])
        ensures
            r@ == self@,
    {
        self.ranks.as_slice()
    }
}

/// Reading back a rank just set gives that rank, and leaves the others as
/// they were.
pub proof fn lemma_rank_round_trip<R>(ranks: Seq<R>, id: int, rank: R)
    requires
        0 <= id < ranks.len(),
    ensures
        ranks.update(id, rank)[id] == rank,
        forall|k: int| 0 <= k < ranks.len() && k != id ==> #[trigger] ranks.update(id, rank)[k] == ranks[k],
{
}

} // verus!
