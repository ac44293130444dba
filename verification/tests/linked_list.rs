use contrail::linked_list::{BacktrackableLinkedListArena, NonBacktrackableLinkedListArena};
use contrail::TrailBuilder;

#[test]
fn linked_list_clone_eq() {
    let mut builder = TrailBuilder::new();
    let arena = NonBacktrackableLinkedListArena::new(&mut builder, (0..2).map(|_| ()).collect());

    let node = arena.node(0);
    let node_clone = node.clone();
    assert!(node == node_clone);
}

#[test]
fn get_set_data() {
    let mut builder = TrailBuilder::new();
    let arena = BacktrackableLinkedListArena::new(&mut builder, (10..15).collect());
    let mut trail = builder.finish();

    let node = arena.node(3);
    assert_eq!(node.data(&trail), 13);

    node.set_data(&mut trail, 23);
    assert_eq!(node.data(&trail), 23);
}

#[test]
fn unlink() {
    let mut builder = TrailBuilder::new();
    let arena = NonBacktrackableLinkedListArena::new(&mut builder, (0..2).map(|_| ()).collect());
    let mut trail = builder.finish();

    let a = arena.node(0);
    let b = arena.node(1);

    a.insert_before(&mut trail, b);

    assert!(a.next(&trail) == b);
    assert!(a.prev(&trail) == b);
    assert!(b.next(&trail) == a);
    assert!(b.prev(&trail) == a);

    b.unlink(&mut trail);

    assert!(a.next(&trail) == a);
    assert!(a.prev(&trail) == a);
    assert!(b.next(&trail) == b);
    assert!(b.prev(&trail) == b);
}

#[test]
fn insert_after() {
    let mut builder = TrailBuilder::new();
    let arena = NonBacktrackableLinkedListArena::new(&mut builder, (0..3).map(|_| ()).collect());
    let mut trail = builder.finish();

    let a = arena.node(0);
    let b = arena.node(1);
    let c = arena.node(2);

    b.insert_after(&mut trail, a);
    c.insert_after(&mut trail, b);

    assert!(a.next(&trail) == b);
    assert!(b.next(&trail) == c);
    assert!(c.next(&trail) == a);

    assert!(a.prev(&trail) == c);
    assert!(c.prev(&trail) == b);
    assert!(b.prev(&trail) == a);
}

#[test]
fn insert_before() {
    let mut builder = TrailBuilder::new();
    let arena = NonBacktrackableLinkedListArena::new(&mut builder, (0..3).map(|_| ()).collect());
    let mut trail = builder.finish();

    let a = arena.node(0);
    let b = arena.node(1);
    let c = arena.node(2);

    b.insert_before(&mut trail, a);
    c.insert_before(&mut trail, b);

    assert!(c.next(&trail) == b);
    assert!(b.next(&trail) == a);
    assert!(a.next(&trail) == c);

    assert!(c.prev(&trail) == a);
    assert!(a.prev(&trail) == b);
    assert!(b.prev(&trail) == c);
}

#[test]
fn clone() {
    let mut builder = TrailBuilder::new();
    let arena = NonBacktrackableLinkedListArena::new(&mut builder, (0..2).map(|_| ()).collect());

    let arena_clone = arena.clone();

    assert!(arena.node(1) == arena_clone.node(1));
}

#[test]
fn ring_of_three() {
    let mut builder = TrailBuilder::new();
    let arena = BacktrackableLinkedListArena::new(&mut builder, vec![(); 3]);
    let mut trail = builder.finish();

    let a = arena.node(0);
    let b = arena.node(1);
    let c = arena.node(2);

    b.insert_after(&mut trail, a);
    c.insert_after(&mut trail, b);

    assert!(a.next(&trail) == b);
    assert!(b.next(&trail) == c);
    assert!(c.next(&trail) == a);
    assert!(a.prev(&trail) == c);
    assert!(c.prev(&trail) == b);
    assert!(b.prev(&trail) == a);

    b.unlink(&mut trail);

    assert!(b.next(&trail) == b);
    assert!(b.prev(&trail) == b);
    assert!(a.next(&trail) == c);
    assert!(c.next(&trail) == a);
    assert!(a.prev(&trail) == c);
    assert!(c.prev(&trail) == a);
}

#[test]
fn insert_after_self_is_noop() {
    let mut builder = TrailBuilder::new();
    let arena = BacktrackableLinkedListArena::new(&mut builder, vec![(); 3]);
    let mut trail = builder.finish();

    let a = arena.node(0);
    let b = arena.node(1);
    let c = arena.node(2);

    b.insert_after(&mut trail, a);
    c.insert_after(&mut trail, b);

    // inserting a node relative to itself leaves the ring intact
    b.insert_after(&mut trail, b);
    b.insert_before(&mut trail, b);

    assert!(a.next(&trail) == b);
    assert!(b.next(&trail) == c);
    assert!(c.next(&trail) == a);
    assert!(a.prev(&trail) == c);
    assert!(c.prev(&trail) == b);
    assert!(b.prev(&trail) == a);
}

#[test]
fn insert_moves_within_ring() {
    let mut builder = TrailBuilder::new();
    let arena = BacktrackableLinkedListArena::new(&mut builder, vec![(); 3]);
    let mut trail = builder.finish();

    let a = arena.node(0);
    let b = arena.node(1);
    let c = arena.node(2);

    b.insert_after(&mut trail, a);
    c.insert_after(&mut trail, b);

    // moving a node after its own predecessor preserves the ring
    b.insert_after(&mut trail, a);
    assert!(a.next(&trail) == b);
    assert!(b.next(&trail) == c);
    assert!(c.next(&trail) == a);

    // moving a node after its successor rotates it past that node
    b.insert_after(&mut trail, c);
    assert!(a.next(&trail) == c);
    assert!(c.next(&trail) == b);
    assert!(b.next(&trail) == a);
}
