//! Candidates of an election
use vstd::prelude::*;

verus! {

/// A candidate: a name, and the position given at nomination, which is the
/// index used for it everywhere else.
#[derive(Debug, Eq)]
pub struct Candidate {
    id: usize,
    name: String,
}

impl Candidate {
    /// The position of the candidate.
    pub closed spec fn spec_id(&self) -> nat {
        self.id as nat
    }

    /// The name of the candidate.
    pub closed spec fn spec_name(&self) -> Seq<char> {
        self.name@
    }

    /// Create the candidate at position `id` with `name`.
    pub(crate) fn new(id: usize, name: String) -> (r: Self)
        ensures
            r.spec_id() == id,
            r.spec_name() == name@,
    {
        Candidate { id, name }
    }

    /// Whether the candidate is called `name`.
    pub(crate) fn has_name(&self, name: &String) -> (r: bool)
        ensures
            r == (self.spec_name() == name@),
    {
        self.name == *name
    }

    /// The name of the candidate.
    pub fn name(&self) -> (r: &str)
        ensures
            r@ == self.spec_name(),
    {
        self.name.as_str()
    }

    /// The position of the candidate.
    pub fn id(&self) -> (r: usize)
        ensures
            r == self.spec_id(),
    {
        self.id
    }
}

impl Clone for Candidate {
    fn clone(&self) -> (r: Self)
        ensures
            r == *self,
    {
        Candidate { id: self.id, name: self.name.clone() }
    }
}

impl PartialEq for Candidate {
    /// Candidates are the same when their positions are.
    fn eq(&self, other: &Candidate) -> (r: bool) {
        self.id == other.id
    }
}

impl vstd::std_specs::cmp::PartialEqSpecImpl for Candidate {
    open spec fn obeys_eq_spec() -> bool {
        true
    }

    open spec fn eq_spec(&self, other: &Candidate) -> bool {
        self.spec_id() == other.spec_id()
    }
}

} // verus!
