//! Ranks that a ballot gives to candidates.
//!
//! Any type that is ordered by preference can serve as a rank: a greater value
//! is the stronger preference. [`SimpleRank`] is the one ballots use unless
//! another is chosen.
use std::cmp::Ordering;
use vstd::prelude::*;

verus! {

/// A rank on a ballot.
///
/// `a > b` means that the voter prefers the candidate ranked `a` to the one
/// ranked `b`; the default value stands for a candidate that was not ranked.
pub trait Rank: Clone + Default + Ord {
    /// The plain value that a rank is read from and written to.
    type Ranking;

    /// Set the rank.
    fn set_rank(&mut self, rank: Self::Ranking);

    /// Get the rank.
    fn get_rank(&self) -> Self::Ranking;
}

/// Ranks from `Some(0)`, the highest, to `Some(255)`, the lowest ranked value;
/// `None` stands for "not ranked" and lies below all of them.
#[derive(Clone, Copy, Debug, PartialEq, Eq, Structural, Ord)]
pub struct SimpleRank {
    /// `Some(255 - r)` for the rank `Some(r)`: a greater priority is a
    /// stronger preference, and `None` is the weakest.
    priority: Option<u8>,
}

/// The priority that stands for a rank.
pub open spec fn priority_of(rank: Option<u8>) -> Option<u8> {
    match rank {
        Some(r) => Some((255 - r) as u8),
        None => None,
    }
}

/// How two ranks compare by preference: a smaller number is the stronger
/// preference, and `None` lies below every number.
pub open spec fn compare_ranks(a: Option<u8>, b: Option<u8>) -> Ordering {
    match (a, b) {
        (Some(x), Some(y)) => if x > y {
            Ordering::Less
        } else if x < y {
            Ordering::Greater
        } else {
            Ordering::Equal
        },
        (Some(_), None) => Ordering::Greater,
        (None, Some(_)) => Ordering::Less,
        (None, None) => Ordering::Equal,
    }
}

impl View for SimpleRank {
    type V = Option<u8>;

    /// The rank as it was given: `Some(r)` or `None`.
    closed spec fn view(&self) -> Option<u8> {
        match self.priority {
            Some(p) => Some((255 - p) as u8),
            None => None,
        }
    }
}

impl SimpleRank {
    /// The rank `rank`, as a value.
    pub closed spec fn spec_new(rank: Option<u8>) -> SimpleRank {
        SimpleRank { priority: priority_of(rank) }
    }

    /// The rank made from `rank` reads back as `rank`.
    pub broadcast proof fn lemma_view_spec_new(rank: Option<u8>)
        ensures
            #[trigger] Self::spec_new(rank)@ == rank,
    {
    }

    /// Create new rank with value `rank`.
    pub fn new(rank: Option<u8>) -> (r: Self)
        ensures
            r@ == rank,
            r == Self::spec_new(rank),
    {
        let priority = match rank {
            Some(v) => Some(255 - v),
            None => None,
        };
        SimpleRank { priority }
    }
}

impl Rank for SimpleRank {
    type Ranking = Option<u8>;

    fn set_rank(&mut self, rank: Option<u8>)
        ensures
            final(self)@ == rank,
    {
        *self = SimpleRank::new(rank);
    }

    fn get_rank(&self) -> (r: Option<u8>)
        ensures
            r == self@,
    {
        match self.priority {
            Some(p) => Some(255 - p),
            None => None,
        }
    }
}

impl Default for SimpleRank {
    /// Not ranked.
    fn default() -> (r: Self)
        ensures
            r@ == None::<u8>,
    {
        SimpleRank { priority: None }
    }
}

impl PartialOrd for SimpleRank {
    fn partial_cmp(&self, other: &SimpleRank) -> (r: Option<Ordering>) {
        match (self.priority, other.priority) {
            (Some(s), Some(o)) => if s < o {
                Some(Ordering::Less)
            } else if s > o {
                Some(Ordering::Greater)
            } else {
                Some(Ordering::Equal)
            },
            (Some(_), None) => Some(Ordering::Greater),
            (None, Some(_)) => Some(Ordering::Less),
            (None, None) => Some(Ordering::Equal),
        }
    }
}

impl vstd::std_specs::cmp::PartialOrdSpecImpl for SimpleRank {
    open spec fn obeys_partial_cmp_spec() -> bool {
        true
    }

    open spec fn partial_cmp_spec(&self, other: &SimpleRank) -> Option<Ordering> {
        Some(compare_ranks(self@, other@))
    }
}

impl From<Option<u8>> for SimpleRank {
    fn from(v: Option<u8>) -> (r: Self) {
        SimpleRank::new(v)
    }
}

impl vstd::std_specs::convert::FromSpecImpl<Option<u8>> for SimpleRank {
    open spec fn obeys_from_spec() -> bool {
        true
    }

    open spec fn from_spec(v: Option<u8>) -> SimpleRank {
        SimpleRank::spec_new(v)
    }
}

impl From<u8> for SimpleRank {
    fn from(v: u8) -> (r: Self) {
        SimpleRank::new(Some(v))
    }
}

impl vstd::std_specs::convert::FromSpecImpl<u8> for SimpleRank {
    open spec fn obeys_from_spec() -> bool {
        true
    }

    open spec fn from_spec(v: u8) -> SimpleRank {
        SimpleRank::spec_new(Some(v))
    }
}

/// How two simple ranks compare.
pub open spec fn simple_cmp(a: SimpleRank, b: SimpleRank) -> Option<Ordering> {
    <SimpleRank as vstd::std_specs::cmp::PartialOrdSpec>::partial_cmp_spec(&a, &b)
}

/// Preference among simple ranks: a rank not given lies below every given
/// rank, two ranks not given are equal, and of two given ranks the smaller
/// number is preferred.
pub proof fn lemma_rank_order(a: SimpleRank, b: SimpleRank)
    ensures
        <SimpleRank as vstd::std_specs::cmp::PartialOrdSpec>::obeys_partial_cmp_spec(),
        a@ is None && b@ is Some ==> simple_cmp(a, b) == Some(Ordering::Less),
        a@ is None && b@ is None ==> simple_cmp(a, b) == Some(Ordering::Equal),
        a@ is Some && b@ is Some ==> (a@->0 < b@->0 <==> simple_cmp(a, b) == Some(
            Ordering::Greater,
        )),
        a@ is Some && b@ is Some ==> (a@->0 == b@->0 <==> simple_cmp(a, b) == Some(
            Ordering::Equal,
        )),
{
}

} // verus!
