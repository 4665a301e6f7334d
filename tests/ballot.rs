use schulze::ballot::RankCountMismatch;
use schulze::election::Election;
use schulze::rank::{Rank, SimpleRank};
use schulze::Nomination;

fn create_election() -> Election {
    let mut nomination = Nomination::new();
    nomination
        .nominate("Peter Gerber")
        .unwrap()
        .nominate("Jane Doe")
        .unwrap()
        .nominate("Andrew Smith")
        .unwrap();
    nomination.election()
}

#[test]
fn ballots() {
    let mut election = create_election();
    election.new_ballot().rank(0, 15).rank(1, 25).rank(2, 0);

    election.new_ballot().rank(0, Some(5)).rank(1, None);

    election.new_ballot().rank(0, 0).rank(1, 1).rank(2, 0);

    assert!(election.candidates().iter().map(|c| c.name()).eq(
        &[
            "Peter Gerber".to_string(),
            "Jane Doe".to_string(),
            "Andrew Smith".to_string(),
        ],
    ));

    let shall = &[
        vec![Some(15), Some(25), Some(0)],
        vec![Some(5), None, None],
        vec![Some(0), Some(1), Some(0)],
    ];
    let is: Vec<_> = election
        .ballots()
        .iter()
        .map(|b| b.ranks().iter().map(|v| v.get_rank()).collect::<Vec<_>>())
        .collect();
    assert_eq!(&shall, &is.as_slice());
}

#[test]
fn rank_all_too_few_fails_and_keeps_ballot() {
    let mut election = create_election();
    let ballot = election.new_ballot();
    ballot.rank(0, 7);
    let err = ballot.rank_all(&[1, 2]).err().unwrap();
    assert_eq!(err, RankCountMismatch { candidates: 3, ranks: 2 });
    let ranks: Vec<_> = ballot.ranks().iter().map(|r| r.get_rank()).collect();
    assert_eq!(ranks, vec![Some(7), None, None]);
}

#[test]
fn rank_all_too_many_fails_and_keeps_ballot() {
    let mut election = create_election();
    let ballot = election.new_ballot();
    ballot.rank(2, 1);
    let err = ballot.rank_all(&[1, 2, 3, 4]).err().unwrap();
    assert_eq!(err, RankCountMismatch { candidates: 3, ranks: 4 });
    let ranks: Vec<_> = ballot.ranks().iter().map(|r| r.get_rank()).collect();
    assert_eq!(ranks, vec![None, None, Some(1)]);
}

#[test]
fn rank_all_exact_count() {
    let mut election = create_election();
    let ballot = election.new_ballot();
    ballot.rank_all(&[4, 7, 3]).unwrap();
    assert!(ballot.get_rank(0) == &4.into());
    assert!(ballot.get_rank(1) == &7.into());
    assert!(ballot.get_rank(2) == &3.into());
    ballot.rank_all(&[Some(1), None, Some(0)]).unwrap();
    assert!(ballot.ranks() == &[SimpleRank::from(1), SimpleRank::from(None), SimpleRank::from(0)]);
}

#[test]
fn rank_round_trip() {
    let mut election = create_election();
    let ballot = election.new_ballot();
    for id in 0..3 {
        for r in [Some(0u8), Some(9), Some(255), None] {
            ballot.rank(id, r);
            assert!(ballot.get_rank(id) == &SimpleRank::new(r));
        }
    }
    ballot.rank(1, 4);
    ballot.rank(0, 2);
    assert_eq!(ballot.get_rank(1).get_rank(), Some(4));
    assert_eq!(ballot.get_rank(0).get_rank(), Some(2));
}

#[test]
fn ballot_names() {
    let mut election = create_election();
    let ballot = election.new_ballot();
    assert_eq!(ballot.name(), None);
    ballot.set_name("Ivy O'Neill");
    assert_eq!(ballot.name(), Some("Ivy O'Neill"));
    ballot.unset_name();
    assert_eq!(ballot.name(), None);
    election.new_ballot().set_name("Juliet").rank(0, 5);
    let ballots = election.ballots();
    assert_eq!(ballots[1].name(), Some("Juliet"));
    assert!(ballots[1].get_rank(0) == &5.into());
}
