use schulze::paths::Paths;
use schulze::widest::widest_paths;

fn all_triples(paths: &Paths) -> Vec<(usize, usize, u32)> {
    let mut iter = paths.iter();
    let mut out = Vec::new();
    while let Some(t) = iter.next() {
        out.push(t);
    }
    out
}

#[test]
fn path() {
    let mut paths = Paths::new(3);

    assert_eq!(paths.path(1, 0), 0);
    assert_eq!(paths.path(2, 1), 0);

    *paths.mut_path(0, 2) = 1;
    *paths.mut_path(1, 0) = 2;
    *paths.mut_path(1, 2) = 3;
    *paths.mut_path(2, 0) = 4;
    *paths.mut_path(2, 1) = 5;

    assert_eq!(paths.path(1, 0), 2);
    assert_eq!(paths.path(2, 1), 5);

    assert_eq!(
        &all_triples(&paths),
        &[
            (0, 1, 0),
            (0, 2, 1),
            (1, 0, 2),
            (1, 2, 3),
            (2, 0, 4),
            (2, 1, 5),
        ]
    );
}

#[test]
fn exhausted_iterator() {
    let paths = Paths::new(3);
    let mut iter = paths.iter();
    for _ in 0..5 {
        iter.next();
    }
    assert!(iter.next().is_some());
    assert!(iter.next().is_none());
    assert!(iter.next().is_none());
}

#[test]
fn iter_size_hint() {
    let paths = Paths::new(20);
    let count = all_triples(&paths).len();
    assert_eq!(count, paths.iter().size_hint().0);
    assert_eq!(Some(count), paths.iter().size_hint().1);
    assert_eq!(count, paths.iter().len());
    assert_eq!(count, 380);
}

#[test]
fn size_hint_counts_what_is_left() {
    let paths = Paths::new(4);
    let mut iter = paths.iter();
    assert_eq!(iter.len(), 12);
    iter.next();
    iter.next();
    assert_eq!(iter.size_hint(), (10, Some(10)));
}

#[test]
fn iterate_tiny_tables() {
    assert!(all_triples(&Paths::new(0)).is_empty());
    assert!(all_triples(&Paths::new(1)).is_empty());
    assert_eq!(all_triples(&Paths::new(2)), vec![(0, 1, 0), (1, 0, 0)]);
    assert_eq!(Paths::new(1).iter().len(), 0);
}

#[test]
fn widest_paths_routes_through_others() {
    // 0 beats 1 by 5, 1 beats 2 by 7: the path 0 -> 1 -> 2 has strength 5
    let mut paths = Paths::new(3);
    *paths.mut_path(0, 1) = 5;
    *paths.mut_path(1, 2) = 7;
    widest_paths(&mut paths);
    assert_eq!(
        all_triples(&paths),
        vec![(0, 1, 5), (0, 2, 5), (1, 0, 0), (1, 2, 7), (2, 0, 0), (2, 1, 0)]
    );
}

#[test]
fn widest_paths_twice_changes_nothing() {
    let mut paths = Paths::new(4);
    let direct = [(0, 1, 6), (1, 2, 3), (2, 3, 8), (3, 0, 4), (2, 0, 2), (1, 3, 9)];
    for (to, from, s) in direct {
        *paths.mut_path(to, from) = s;
    }
    widest_paths(&mut paths);
    let once = all_triples(&paths);
    widest_paths(&mut paths);
    assert_eq!(all_triples(&paths), once);
    assert_eq!(paths.path(0, 3), 6);
    assert_eq!(paths.path(3, 1), 4);
    assert_eq!(paths.path(3, 2), 3);
}
