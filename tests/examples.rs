use schulze::election::{Election, ElectionResult};
use schulze::Nomination;

fn rank(election: &mut Election, count: u32, ranks: &str) {
    for _ in 0..count {
        let ballot = election.new_ballot();
        for (i, v) in ranks.as_bytes().iter().enumerate() {
            ballot.rank((v - b'A') as usize, i as u8);
        }
    }
}

fn nominate_letters(letters: &str) -> Election {
    let mut nomination = Nomination::new();
    for c in letters.chars() {
        nomination.nominate(&c.to_string()).unwrap();
    }
    nomination.election()
}

fn extract_paths(result: &ElectionResult) -> Vec<(char, char, u32)> {
    let mut iter = result.paths().iter();
    let mut paths = Vec::new();
    while let Some((to, from, pref)) = iter.next() {
        paths.push(((to as u8 + b'A') as char, (from as u8 + b'A') as char, pref));
    }
    paths.sort_unstable();
    paths
}

fn assert_paths_eq(result: &ElectionResult, other: &[(char, char, u32)]) {
    let paths_is = extract_paths(result);
    assert_eq!(paths_is, other);
}

fn extract_ranked_candidates(result: &ElectionResult) -> Vec<&str> {
    result.ranked_candidates().iter().map(|c| c.name()).collect()
}

fn assert_ranked_candidates_eq(result: &ElectionResult, other: &[&str]) {
    let candidates_is = extract_ranked_candidates(result);
    assert_eq!(candidates_is, other);
}

fn assert_ranked_candidates_in(result: &ElectionResult, others: &[&[&str]]) {
    let candidates_is = extract_ranked_candidates(result);
    assert!(
        others.contains(&candidates_is.as_slice()),
        "{:?} is not in {:?}",
        candidates_is,
        others
    );
}

#[test]
fn example1() {
    let mut election = nominate_letters("ABCDE");

    rank(&mut election, 5, "ACBED");
    rank(&mut election, 5, "ADECB");
    rank(&mut election, 8, "BEDAC");
    rank(&mut election, 3, "CABED");
    rank(&mut election, 7, "CAEBD");
    rank(&mut election, 2, "CBADE");
    rank(&mut election, 7, "DCEBA");
    rank(&mut election, 8, "EBADC");

    assert_eq!(election.candidates().len(), 5);
    assert_eq!(election.ballots().len(), 45);

    let result = election.result();
    assert_paths_eq(
        &result,
        &[
            ('A', 'B', 28), // 28 people prefer A over B
            ('A', 'C', 28),
            ('A', 'D', 30),
            ('A', 'E', 24),
            ('B', 'A', 25),
            ('B', 'C', 28),
            ('B', 'D', 33),
            ('B', 'E', 24),
            ('C', 'A', 25),
            ('C', 'B', 29),
            ('C', 'D', 29),
            ('C', 'E', 24),
            ('D', 'A', 25),
            ('D', 'B', 28),
            ('D', 'C', 28),
            ('D', 'E', 24),
            ('E', 'A', 25),
            ('E', 'B', 28),
            ('E', 'C', 28),
            ('E', 'D', 31),
        ],
    );
    assert_ranked_candidates_eq(&result, &["E", "A", "C", "B", "D"]);
}

#[test]
fn example2() {
    let mut election = nominate_letters("ABCD");

    rank(&mut election, 5, "ACBD");
    rank(&mut election, 2, "ACDB");
    rank(&mut election, 3, "ADCB");
    rank(&mut election, 4, "BACD");
    rank(&mut election, 3, "CBDA");
    rank(&mut election, 3, "CDBA");
    rank(&mut election, 1, "DACB");
    rank(&mut election, 5, "DBAC");
    rank(&mut election, 4, "DCBA");

    assert_eq!(election.candidates().len(), 4);
    assert_eq!(election.ballots().len(), 30);

    let result = election.result();
    assert_paths_eq(
        &result,
        &[
            ('A', 'B', 20), // 20 people prefer A over B
            ('A', 'C', 20),
            ('A', 'D', 17),
            ('B', 'A', 19),
            ('B', 'C', 19),
            ('B', 'D', 17),
            ('C', 'A', 19),
            ('C', 'B', 21),
            ('C', 'D', 17),
            ('D', 'A', 18),
            ('D', 'B', 18),
            ('D', 'C', 18),
        ],
    );
    assert_ranked_candidates_eq(&result, &["D", "A", "C", "B"]);
}

#[test]
fn example3() {
    let mut election = nominate_letters("ABCDE");

    rank(&mut election, 3, "ABDEC");
    rank(&mut election, 5, "ADEBC");
    rank(&mut election, 1, "ADECB");
    rank(&mut election, 2, "BADEC");
    rank(&mut election, 2, "BDECA");
    rank(&mut election, 4, "CABDE");
    rank(&mut election, 6, "CBADE");
    rank(&mut election, 2, "DBECA");
    rank(&mut election, 5, "DECAB");

    assert_eq!(election.candidates().len(), 5);
    assert_eq!(election.ballots().len(), 30);

    let result = election.result();
    assert_paths_eq(
        &result,
        &[
            ('A', 'B', 18), // 18 people prefer A over B
            ('A', 'C', 20),
            ('A', 'D', 21),
            ('A', 'E', 21),
            ('B', 'A', 19),
            ('B', 'C', 19),
            ('B', 'D', 19),
            ('B', 'E', 19),
            ('C', 'A', 19),
            ('C', 'B', 18),
            ('C', 'D', 19),
            ('C', 'E', 19),
            ('D', 'A', 19),
            ('D', 'B', 18),
            ('D', 'C', 20),
            ('D', 'E', 30),
            ('E', 'A', 19),
            ('E', 'B', 18),
            ('E', 'C', 20),
            ('E', 'D', 19),
        ],
    );
    assert_ranked_candidates_eq(&result, &["B", "A", "D", "E", "C"]);
}

#[test]
fn example4() {
    let mut election = nominate_letters("ABCD");

    rank(&mut election, 3, "ABCD");
    rank(&mut election, 2, "DABC");
    rank(&mut election, 2, "DBCA");
    rank(&mut election, 2, "CBDA");

    assert_eq!(election.candidates().len(), 4);
    assert_eq!(election.ballots().len(), 9);

    let result = election.result();
    assert_paths_eq(
        &result,
        &[
            ('A', 'B', 5), // 5 people prefer A over B
            ('A', 'C', 5),
            ('A', 'D', 5),
            ('B', 'A', 5),
            ('B', 'C', 7),
            ('B', 'D', 5),
            ('C', 'A', 5),
            ('C', 'B', 5),
            ('C', 'D', 5),
            ('D', 'A', 6),
            ('D', 'B', 5),
            ('D', 'C', 5),
        ],
    );

    assert_ranked_candidates_in(
        &result,
        &[
            &["B", "C", "D", "A"],
            &["B", "D", "A", "C"],
            &["B", "D", "C", "A"],
            &["D", "A", "B", "C"],
            &["D", "B", "A", "C"],
            &["D", "B", "C", "A"],
        ],
    );
}
