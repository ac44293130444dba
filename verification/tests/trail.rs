use contrail::{
    BacktrackableArray, BacktrackableValue, NonBacktrackableArray, NonBacktrackableValue,
    TrailBuilder,
};

#[test]
fn backtrackable_and_non_backtrackable_value() {
    let init_val = 5;
    let new_val = 6;

    let mut builder = TrailBuilder::new();
    let backtrackable = BacktrackableValue::new(&mut builder, init_val);
    let non_backtrackable = NonBacktrackableValue::new(&mut builder, init_val);
    let mut trail = builder.finish();

    assert_eq!(trail.trail_len(), 0);
    assert!(trail.is_trail_empty());

    assert_eq!(backtrackable.get(&trail), init_val);
    assert_eq!(non_backtrackable.get(&trail), init_val);

    trail.new_level();
    assert_eq!(trail.trail_len(), 1);
    assert!(!trail.is_trail_empty());

    assert_eq!(backtrackable.get(&trail), init_val);
    assert_eq!(non_backtrackable.get(&trail), init_val);

    backtrackable.set(&mut trail, new_val);
    non_backtrackable.set(&mut trail, new_val);

    assert_eq!(backtrackable.get(&trail), new_val);
    assert_eq!(non_backtrackable.get(&trail), new_val);

    trail.backtrack();
    assert_eq!(trail.trail_len(), 0);
    assert!(trail.is_trail_empty());

    assert_eq!(backtrackable.get(&trail), init_val);
    assert_eq!(non_backtrackable.get(&trail), new_val);
}

#[test]
fn backtrackable_and_non_backtrackable_array() {
    let init_vals = vec![1, 3, 5, 7];
    let new_vals = vec![2, 4, 6, 8];

    let mut builder = TrailBuilder::new();
    let backtrackable = BacktrackableArray::new(&mut builder, &init_vals);
    let stored = NonBacktrackableArray::new(&mut builder, &init_vals);
    let mut trail = builder.finish();

    assert_eq!(trail.trail_len(), 0);
    assert!(trail.is_trail_empty());

    for i in 0..4 {
        assert_eq!(backtrackable.get(&trail, i), init_vals[i]);
        assert_eq!(stored.get(&trail, i), init_vals[i]);

        trail.new_level();
        assert_eq!(trail.trail_len(), 1);
        assert!(!trail.is_trail_empty());

        assert_eq!(backtrackable.get(&trail, i), init_vals[i]);
        assert_eq!(stored.get(&trail, i), init_vals[i]);

        backtrackable.set(&mut trail, i, new_vals[i]);
        stored.set(&mut trail, i, new_vals[i]);

        assert_eq!(backtrackable.get(&trail, i), new_vals[i]);
        assert_eq!(stored.get(&trail, i), new_vals[i]);

        trail.backtrack();
        assert_eq!(trail.trail_len(), 0);
        assert!(trail.is_trail_empty());

        assert_eq!(backtrackable.get(&trail, i), init_vals[i]);
        assert_eq!(stored.get(&trail, i), new_vals[i]);
    }
}

#[test]
fn array_iter() {
    let vals = vec![1, 3, 5, 7, 9];

    let mut builder = TrailBuilder::new();
    let array = BacktrackableArray::new(&mut builder, &vals);
    let trail = builder.finish();

    let mut iter_vals = Vec::new();
    let mut iter = array.iter(&trail);
    while let Some(v) = iter.next(&trail) {
        iter_vals.push(v);
    }
    assert_eq!(iter_vals, vals);
}

#[test]
fn trailed_and_stable_counter() {
    let mut builder = TrailBuilder::new();
    let trailed_counter = BacktrackableValue::new(&mut builder, 0);
    let stable_counter = NonBacktrackableValue::new(&mut builder, 0);
    let mut trail = builder.finish();

    trail.new_level();

    trailed_counter.update(&mut trail, |x| x + 1);
    stable_counter.update(&mut trail, |x| x + 1);

    assert_eq!(trailed_counter.get(&trail), 1);
    assert_eq!(stable_counter.get(&trail), 1);

    trail.backtrack();

    assert_eq!(trailed_counter.get(&trail), 0);
    assert_eq!(stable_counter.get(&trail), 1);
}

#[test]
fn countdown_and_unwind() {
    let mut builder = TrailBuilder::new();
    let countdown = BacktrackableValue::new(&mut builder, 3);
    let mut trail = builder.finish();

    let mut emitted = Vec::new();

    while countdown.get(&trail) > 0 {
        trail.new_level();
        emitted.push(countdown.get(&trail));
        countdown.update(&mut trail, |x| x - 1);
    }
    emitted.push(countdown.get(&trail));

    while !trail.is_trail_empty() {
        trail.backtrack();
        emitted.push(countdown.get(&trail));
    }

    assert_eq!(emitted, vec![3, 2, 1, 0, 1, 2, 3]);
}

#[test]
fn stack_depth() {
    let mut trail = TrailBuilder::new().finish();

    for k in 1..=4 {
        trail.new_level();
        assert_eq!(trail.trail_len(), k);
    }
    trail.backtrack();
    trail.backtrack();
    assert_eq!(trail.trail_len(), 2);
    trail.new_level();
    assert_eq!(trail.trail_len(), 3);
    for _ in 0..3 {
        trail.backtrack();
    }
    assert_eq!(trail.trail_len(), 0);
    assert!(trail.is_trail_empty());

    // backtracking an empty trail is a no-op
    trail.backtrack();
    assert_eq!(trail.trail_len(), 0);
}

#[test]
fn swap_same_index() {
    let mut builder = TrailBuilder::new();
    let array = BacktrackableArray::new(&mut builder, &vec![4, 5, 6]);
    let mut trail = builder.finish();

    array.swap(&mut trail, 2, 2);
    assert_eq!(array.get(&trail, 0), 4);
    assert_eq!(array.get(&trail, 1), 5);
    assert_eq!(array.get(&trail, 2), 6);

    array.swap(&mut trail, 0, 2);
    assert_eq!(array.get(&trail, 0), 6);
    assert_eq!(array.get(&trail, 2), 4);
}
