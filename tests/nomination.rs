use schulze::Nomination;

#[test]
fn nominate() {
    let mut nomination = Nomination::new();
    nomination
        .nominate("Dianne Summer")
        .unwrap()
        .nominate("John Winter")
        .unwrap()
        .nominate("Ivy Spring")
        .unwrap();
    let election = nomination.election();

    assert_eq!(
        election
            .candidates()
            .iter()
            .map(|c| c.name())
            .collect::<Vec<_>>(),
        &["Dianne Summer", "John Winter", "Ivy Spring"]
    );
    let ids: Vec<_> = election.candidates().iter().map(|c| c.id()).collect();
    assert_eq!(ids, vec![0, 1, 2]);
}

#[test]
fn duplicate_name_fails_and_keeps_nomination() {
    let mut nomination = Nomination::new();
    nomination
        .nominate("Jane Doe")
        .unwrap()
        .nominate("John Doe")
        .unwrap();
    let err = nomination.nominate("Jane Doe").err().unwrap();
    assert_eq!(err.name, "Jane Doe");
    // names are matched exactly
    assert!(nomination.nominate("jane doe").is_ok());
    let election = nomination.election();
    let names: Vec<_> = election.candidates().iter().map(|c| c.name()).collect();
    assert_eq!(names, vec!["Jane Doe", "John Doe", "jane doe"]);
    assert_eq!(election.ballots().len(), 0);
}
