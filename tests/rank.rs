use schulze::rank::{Rank, SimpleRank};

#[test]
fn rank_set_get() {
    let mut rank = SimpleRank::new(Some(3));
    assert_eq!(rank.get_rank(), Some(3));
    rank.set_rank(None);
    assert_eq!(rank.get_rank(), None);
}

#[test]
fn rank_eq() {
    assert!(SimpleRank::from(5) == SimpleRank::from(5));
    assert!(SimpleRank::from(5) != SimpleRank::from(15));
    assert!(SimpleRank::from(None) == SimpleRank::from(None));
    assert!(SimpleRank::from(5) != SimpleRank::from(None));
}

#[test]
fn rank_partial_ord() {
    // left greater
    assert!(SimpleRank::from(255) > SimpleRank::from(None));
    assert!(SimpleRank::from(5) > SimpleRank::from(6));

    // left less
    assert!(!(SimpleRank::from(None) > SimpleRank::from(255)));
    assert!(!(SimpleRank::from(6) > SimpleRank::from(5)));

    // equal
    assert!(!(SimpleRank::from(None) > SimpleRank::from(None)));
    assert!(!(SimpleRank::from(6) > SimpleRank::from(6)));
}

#[test]
fn rank_ord() {
    // max when left greater
    assert!(SimpleRank::from(255).max(SimpleRank::from(None)) == SimpleRank::from(255));
    assert!(SimpleRank::from(5).max(SimpleRank::from(6)) == SimpleRank::from(5));

    // min when left greater
    assert!(SimpleRank::from(255).min(SimpleRank::from(None)) == SimpleRank::from(None));
    assert!(SimpleRank::from(5).min(SimpleRank::from(6)) == SimpleRank::from(6));

    // equal
    assert!(SimpleRank::from(None).max(SimpleRank::from(None)) == SimpleRank::from(None));
    assert!(SimpleRank::from(6).max(SimpleRank::from(6)) == SimpleRank::from(6));
}

#[test]
fn rank_order_over_all_values() {
    let unranked = SimpleRank::default();
    assert_eq!(unranked.get_rank(), None);
    for v in 0..=255u8 {
        assert!(unranked < SimpleRank::from(v));
        assert_eq!(SimpleRank::from(v).get_rank(), Some(v));
        if v < 255 {
            assert!(SimpleRank::from(v) > SimpleRank::from(v + 1));
            assert_eq!(
                SimpleRank::from(v).cmp(&SimpleRank::from(v + 1)),
                std::cmp::Ordering::Greater
            );
        }
    }
    assert!(SimpleRank::from(None) == unranked);
}

#[test]
fn rank_conversions_agree() {
    let rank1: SimpleRank = 5.into();
    let rank2: SimpleRank = Some(5).into();
    assert!(rank1 == rank2);
    assert!(SimpleRank::new(Some(0)) > SimpleRank::new(Some(255)));
    assert!(SimpleRank::new(Some(255)) > SimpleRank::new(None));
}
