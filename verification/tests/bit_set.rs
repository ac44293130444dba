use contrail::bit_set::BacktrackableBitSet;
use contrail::TrailBuilder;

#[test]
fn new() {
    let mut builder = TrailBuilder::new();
    let empty = BacktrackableBitSet::new_empty(&mut builder, 10);
    let full = BacktrackableBitSet::new_full(&mut builder, 10);
    let trail = builder.finish();

    assert_eq!(empty.capacity(), 10);
    assert_eq!(full.capacity(), 10);

    for i in 0..10 {
        assert!(!empty.contains(&trail, i));
        assert!(full.contains(&trail, i));
    }
}

#[test]
fn clear() {
    let mut builder = TrailBuilder::new();
    let bit_set = BacktrackableBitSet::new_full(&mut builder, 100);
    let mut trail = builder.finish();

    for i in 0..100 {
        assert!(bit_set.contains(&trail, i));
    }

    bit_set.clear(&mut trail);

    for i in 0..100 {
        assert!(!bit_set.contains(&trail, i));
    }
}

#[test]
fn insert_remove_contains() {
    let mut builder = TrailBuilder::new();
    let bit_set = BacktrackableBitSet::new_empty(&mut builder, 10);
    let mut trail = builder.finish();

    assert!(!bit_set.contains(&trail, 100));

    for i in 0..10 {
        assert!(!bit_set.contains(&trail, i));
        bit_set.insert(&mut trail, i);
        assert!(bit_set.contains(&trail, i));
        bit_set.remove(&mut trail, i);
        assert!(!bit_set.contains(&trail, i));
    }
}

#[test]
fn count_between() {
    let mut builder = TrailBuilder::new();
    let small = BacktrackableBitSet::new_full(&mut builder, 10);
    let medium = BacktrackableBitSet::new_full(&mut builder, 100);
    let large = BacktrackableBitSet::new_full(&mut builder, 1000);
    let trail = builder.finish();

    assert_eq!(small.count_between(&trail, 0, 9), 10);
    assert_eq!(small.count_between(&trail, 1, 8), 8);
    assert_eq!(small.count_between(&trail, 5, 5), 1);
    assert_eq!(small.count_between(&trail, 6, 5), 0);

    assert_eq!(medium.count_between(&trail, 0, 99), 100);
    assert_eq!(medium.count_between(&trail, 1, 98), 98);
    assert_eq!(medium.count_between(&trail, 50, 50), 1);
    assert_eq!(medium.count_between(&trail, 51, 50), 0);

    assert_eq!(large.count_between(&trail, 0, 999), 1000);
    assert_eq!(large.count_between(&trail, 1, 998), 998);
    assert_eq!(large.count_between(&trail, 500, 500), 1);
    assert_eq!(large.count_between(&trail, 501, 500), 0);
}

#[test]
fn next_above_below() {
    let mut builder = TrailBuilder::new();
    let bit_set = BacktrackableBitSet::new_empty(&mut builder, 1000);
    let mut trail = builder.finish();

    for i in 1..10 {
        bit_set.insert(&mut trail, i * 100);
    }

    for i in 0..100 {
        assert_eq!(bit_set.next_below(&trail, i), None);
        assert_eq!(bit_set.next_above(&trail, i), Some(100));
    }

    for i in 401..500 {
        assert_eq!(bit_set.next_below(&trail, i), Some(400));
        assert_eq!(bit_set.next_above(&trail, i), Some(500));
    }

    for i in 901..1000 {
        assert_eq!(bit_set.next_below(&trail, i), Some(900));
        assert_eq!(bit_set.next_above(&trail, i), None);
    }
}

#[test]
fn count_matches_membership() {
    let mut builder = TrailBuilder::new();
    let bit_set = BacktrackableBitSet::new_empty(&mut builder, 130);
    let mut trail = builder.finish();

    for v in [0, 1, 63, 64, 65, 127, 128, 129] {
        bit_set.insert(&mut trail, v);
    }

    let mut members = 0;
    for v in 0..130 {
        if bit_set.contains(&trail, v) {
            members += 1;
        }
    }
    assert_eq!(members, 8);
    assert_eq!(bit_set.count_between(&trail, 0, 129), 8);
    assert_eq!(bit_set.count_between(&trail, 1, 128), 6);
    assert_eq!(bit_set.count_between(&trail, 64, 64), 1);
    // the high end of the range is clipped to the capacity
    assert_eq!(bit_set.count_between(&trail, 0, 100000), 8);
}

#[test]
fn backtrackable_membership() {
    let mut builder = TrailBuilder::new();
    let bit_set = BacktrackableBitSet::new_empty(&mut builder, 70);
    let mut trail = builder.finish();

    bit_set.insert(&mut trail, 3);
    trail.new_level();
    bit_set.insert(&mut trail, 68);
    bit_set.remove(&mut trail, 3);

    assert!(!bit_set.contains(&trail, 3));
    assert!(bit_set.contains(&trail, 68));

    trail.backtrack();

    assert!(bit_set.contains(&trail, 3));
    assert!(!bit_set.contains(&trail, 68));
}

#[test]
fn next_edges() {
    let mut builder = TrailBuilder::new();
    let bit_set = BacktrackableBitSet::new_empty(&mut builder, 1000);
    let mut trail = builder.finish();

    for i in 1..10 {
        bit_set.insert(&mut trail, i * 100);
    }

    // a member is its own nearest neighbor in both directions
    assert_eq!(bit_set.next_above(&trail, 900), Some(900));
    assert_eq!(bit_set.next_below(&trail, 900), Some(900));

    // queries past the capacity
    assert_eq!(bit_set.next_above(&trail, 5000), None);
    assert_eq!(bit_set.next_below(&trail, 5000), Some(900));
    assert_eq!(bit_set.count_between(&trail, 2000, 3000), 0);

    // an empty set has no neighbor below any value
    bit_set.clear(&mut trail);
    assert_eq!(bit_set.next_below(&trail, 500), None);
    assert_eq!(bit_set.next_above(&trail, 0), None);
}
