//! Nomination of candidates
//!
//! Candidates are nominated one after another, each under a name not taken
//! yet; the nomination then becomes an election.
use crate::candidate::Candidate;
use crate::election::{candidates_in_place, Election};
use crate::rank::{Rank, SimpleRank};
use vstd::prelude::*;

verus! {

/// A name was nominated a second time.
#[derive(Debug)]
pub struct DuplicateName {
    /// The name that was nominated already.
    pub name: String,
}

/// Nomination of candidates
pub struct Nomination {
    candidates: Vec<Candidate>,
}

impl Nomination {
    /// The candidates nominated so far, by position.
    pub closed spec fn nominated(&self) -> Seq<Candidate> {
        self.candidates@
    }

    /// Each candidate stands at its own position, under a name of its own.
    pub open spec fn wf(&self) -> bool {
        candidates_in_place(self.nominated())
    }

    /// Create new nomination.
    pub fn new() -> (r: Self)
        ensures
            r.wf(),
            r.nominated().len() == 0,
    {
        Nomination { candidates: Vec::new() }
    }

    /// Nominate candidate with name.
    ///
    /// Fails, and leaves the nomination as it was, if `name` has been
    /// nominated already.
    pub fn nominate(&mut self, name: &str) -> (r: Result<&mut Self, DuplicateName>)
        requires
            old(self).wf(),
        ensures
            r is Err <==> exists|k: int|
                0 <= k < old(self).nominated().len() && (#[trigger] old(self).nominated()[k]).spec_name()
                    == name@,
            r is Err ==> r->Err_0.name@ == name@ && *final(self) == *old(self),
            r is Ok ==> {
                let c = r->Ok_0.nominated();
                &&& c.len() == old(self).nominated().len() + 1
                &&& c.drop_last() == old(self).nominated()
                &&& c.last().spec_id() == old(self).nominated().len()
                &&& c.last().spec_name() == name@
                &&& r->Ok_0.wf()
                &&& *final(self) == *final(r->Ok_0)
            },
    {
        let owned = name.to_owned();
        let mut k: usize = 0;
        while k < self.candidates.len()
            invariant
                owned@ == name@,
                k <= self.candidates@.len(),
                forall|t: int| 0 <= t < k ==> (#[trigger] self.candidates@[t]).spec_name() != name@,
            decreases self.candidates@.len() - k,
        {
            if self.candidates[k].has_name(&owned) {
                proof {
                    assert(self.nominated()[k as int].spec_name() == name@);
                }
                return Err(DuplicateName { name: owned });
            }
            k = k + 1;
        }
        let candidate = Candidate::new(self.candidates.len(), owned);
        proof {
            let c = self.candidates@.push(candidate);
            assert forall|a: int, b: int|
                0 <= a < c.len() && 0 <= b < c.len() && a != b implies (#[trigger] c[a]).spec_name() != (
                #[trigger] c[b]).spec_name() by {
                if a < c.len() - 1 && b < c.len() - 1 {
                    assert(c[a] == self.candidates@[a] && c[b] == self.candidates@[b]);
                }
            }
            assert(c.drop_last() =~= self.candidates@);
        }
        self.candidates.push(candidate);
        Ok(self)
    }

    /// Create election
    pub fn election(self) -> (r: Election)
        requires
            self.wf(),
        ensures
            r.wf(),
            r.candidate_list() == self.nominated(),
            r.ballot_list().len() == 0,
    {
        Election::new(self.candidates)
    }

    /// Create election with custom `Rank`ing
    pub fn election_with_ranking<R: Rank>(self) -> (r: Election<R>)
        requires
            self.wf(),
        ensures
            r.wf(),
            r.candidate_list() == self.nominated(),
            r.ballot_list().len() == 0,
    {
        Election::new(self.candidates)
    }
}

} // verus!
