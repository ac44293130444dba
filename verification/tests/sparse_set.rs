use contrail::sparse_set::BacktrackableSparseSet;
use contrail::TrailBuilder;

#[test]
fn sparse_set_clone_eq() {
    let mut builder = TrailBuilder::new();
    let sparse_set = BacktrackableSparseSet::new_full(&mut builder, 10);

    let clone = sparse_set.clone();
    assert!(sparse_set == clone);
}

#[test]
fn iter() {
    let mut builder = TrailBuilder::new();
    let sparse_set = BacktrackableSparseSet::new_full(&mut builder, 6);
    let mut trail = builder.finish();

    sparse_set.remove(&mut trail, 1);
    sparse_set.remove(&mut trail, 3);
    sparse_set.remove(&mut trail, 5);

    let mut values = sparse_set.iter(&trail);
    values.sort();
    assert_eq!(values, &[0, 2, 4]);
}

#[test]
fn is_empty() {
    let mut builder = TrailBuilder::new();
    let empty = BacktrackableSparseSet::new_full(&mut builder, 0);
    let not_empty = BacktrackableSparseSet::new_full(&mut builder, 1);
    let trail = builder.finish();

    assert_eq!(empty.len(&trail), 0);
    assert!(empty.is_empty(&trail));

    assert_eq!(not_empty.len(&trail), 1);
    assert!(!not_empty.is_empty(&trail));
}

#[test]
fn filter() {
    let mut builder = TrailBuilder::new();
    let sparse_set = BacktrackableSparseSet::new_full(&mut builder, 10);
    let mut trail = builder.finish();

    sparse_set.filter(&mut trail, |x| x % 2 == 1);

    let mut values = sparse_set.iter(&trail);
    values.sort();
    assert_eq!(values, vec![1, 3, 5, 7, 9]);
}

#[test]
fn intersect() {
    let mut builder = TrailBuilder::new();
    let sparse_set = BacktrackableSparseSet::new_full(&mut builder, 10);
    let mut trail = builder.finish();

    sparse_set.intersect(&mut trail, vec![0, 1, 1, 2, 3, 5, 8, 13]);

    let mut values = sparse_set.iter(&trail);
    values.sort();
    assert_eq!(values, vec![0, 1, 2, 3, 5, 8]);
}

#[test]
fn backtrack() {
    let mut builder = TrailBuilder::new();

    let trailed_sparse_set = BacktrackableSparseSet::new_full(&mut builder, 5);

    let trail = &mut builder.finish();

    trail.new_level();

    trailed_sparse_set.remove(trail, 1);
    assert!(!trailed_sparse_set.contains(trail, 1));

    trail.new_level();

    trailed_sparse_set.remove(trail, 4);
    assert!(!trailed_sparse_set.contains(trail, 4));

    trailed_sparse_set.remove(trail, 2);

    assert!(!trailed_sparse_set.contains(trail, 4));

    trail.new_level();

    trailed_sparse_set.remove(trail, 0);
    assert!(!trailed_sparse_set.contains(trail, 0));

    trail.backtrack();

    assert!(trailed_sparse_set.contains(trail, 0));

    trail.backtrack();

    assert!(trailed_sparse_set.contains(trail, 4));
    assert!(trailed_sparse_set.contains(trail, 2));

    trail.backtrack();

    assert!(trailed_sparse_set.contains(trail, 1));
}

#[test]
fn intersect_length_and_membership() {
    let mut builder = TrailBuilder::new();
    let sparse_set = BacktrackableSparseSet::new_full(&mut builder, 10);
    let mut trail = builder.finish();

    sparse_set.intersect(&mut trail, vec![0, 1, 1, 2, 3, 5, 8, 13]);

    assert_eq!(sparse_set.len(&trail), 6);
    for v in [0, 1, 2, 3, 5, 8] {
        assert!(sparse_set.contains(&trail, v));
    }
    for v in [4, 6, 7, 9, 13] {
        assert!(!sparse_set.contains(&trail, v));
    }
}

#[test]
fn remove_is_idempotent() {
    let mut builder = TrailBuilder::new();
    let sparse_set = BacktrackableSparseSet::new_full(&mut builder, 4);
    let mut trail = builder.finish();

    sparse_set.remove(&mut trail, 2);
    assert_eq!(sparse_set.len(&trail), 3);
    sparse_set.remove(&mut trail, 2);
    assert_eq!(sparse_set.len(&trail), 3);

    // removing a value past the universe is a no-op
    sparse_set.remove(&mut trail, 17);
    assert_eq!(sparse_set.len(&trail), 3);
    assert!(!sparse_set.contains(&trail, 17));
}
