use contrail::{ArrayPointer, MemoryBuilder, Pointer};

#[test]
fn mem_get_set_update() {
    let mut builder = MemoryBuilder::new();
    let pointer = Pointer::new(&mut builder, 5);
    let mut memory = builder.finish();

    assert_eq!(pointer.get(&memory), 5);

    pointer.set(&mut memory, 6);
    assert_eq!(pointer.get(&memory), 6);

    pointer.update(&mut memory, |x| x - 1);
    assert_eq!(pointer.get(&memory), 5);
}

#[test]
fn empty() {
    let mut builder = MemoryBuilder::new();
    let no_elems: Vec<char> = vec![];
    let empty = ArrayPointer::<char>::new(&mut builder, &no_elems);
    let not_empty = ArrayPointer::new(&mut builder, &vec!['a', 'b', 'c']);

    assert!(empty.is_empty());
    assert!(empty.len() == 0);

    assert!(!not_empty.is_empty());
    assert!(not_empty.len() != 0);
}

#[test]
fn get_set_update() {
    let values = vec![1, 3, 5, 7];
    let mut builder = MemoryBuilder::new();
    let pointer = ArrayPointer::new(&mut builder, &values);
    let mut memory = builder.finish();

    for i in 0..4 {
        assert_eq!(pointer.get(&memory, i), values[i]);

        pointer.set(&mut memory, i, values[i] + 1);
        assert_eq!(pointer.get(&memory, i), values[i] + 1);

        pointer.update(&mut memory, i, |x| x - 1);
        assert_eq!(pointer.get(&memory, i), values[i]);
    }
}

#[test]
fn swap() {
    let mut builder = MemoryBuilder::new();
    let pointer = ArrayPointer::new(&mut builder, &vec!['a', 'z']);
    let mut memory = builder.finish();

    assert_eq!(pointer.get(&memory, 0), 'a');
    assert_eq!(pointer.get(&memory, 1), 'z');

    pointer.swap(&mut memory, 0, 1);

    assert_eq!(pointer.get(&memory, 0), 'z');
    assert_eq!(pointer.get(&memory, 1), 'a');
}

#[test]
fn codec_round_trip_primitives() {
    let mut builder = MemoryBuilder::new();
    let p_u8 = Pointer::new(&mut builder, 0xABu8);
    let p_u16 = Pointer::new(&mut builder, 0xCAFEu16);
    let p_u32 = Pointer::new(&mut builder, 0xDEADBEEFu32);
    let p_u64 = Pointer::new(&mut builder, 0x0123456789ABCDEFu64);
    let p_u128 = Pointer::new(&mut builder, 0x0123456789ABCDEF0123456789ABCDEFu128);
    let p_usize = Pointer::new(&mut builder, 12345usize);
    let p_i8 = Pointer::new(&mut builder, -5i8);
    let p_i16 = Pointer::new(&mut builder, -1234i16);
    let p_i32 = Pointer::new(&mut builder, -123456i32);
    let p_i64 = Pointer::new(&mut builder, -1234567891011i64);
    let p_i128 = Pointer::new(&mut builder, -123456789101112131415i128);
    let p_isize = Pointer::new(&mut builder, -54321isize);
    let p_bool = Pointer::new(&mut builder, true);
    let p_char = Pointer::new(&mut builder, 'R');
    let p_unit = Pointer::new(&mut builder, ());
    let mut memory = builder.finish();

    assert_eq!(p_u8.get(&memory), 0xABu8);
    assert_eq!(p_u16.get(&memory), 0xCAFEu16);
    assert_eq!(p_u32.get(&memory), 0xDEADBEEFu32);
    assert_eq!(p_u64.get(&memory), 0x0123456789ABCDEFu64);
    assert_eq!(p_u128.get(&memory), 0x0123456789ABCDEF0123456789ABCDEFu128);
    assert_eq!(p_usize.get(&memory), 12345usize);
    assert_eq!(p_i8.get(&memory), -5i8);
    assert_eq!(p_i16.get(&memory), -1234i16);
    assert_eq!(p_i32.get(&memory), -123456i32);
    assert_eq!(p_i64.get(&memory), -1234567891011i64);
    assert_eq!(p_i128.get(&memory), -123456789101112131415i128);
    assert_eq!(p_isize.get(&memory), -54321isize);
    assert_eq!(p_bool.get(&memory), true);
    assert_eq!(p_char.get(&memory), 'R');
    assert_eq!(p_unit.get(&memory), ());

    p_char.set(&mut memory, '\u{1F600}');
    assert_eq!(p_char.get(&memory), '\u{1F600}');
    p_bool.set(&mut memory, false);
    assert_eq!(p_bool.get(&memory), false);
    p_i64.set(&mut memory, i64::MIN);
    assert_eq!(p_i64.get(&memory), i64::MIN);
    p_u64.set(&mut memory, u64::MAX);
    assert_eq!(p_u64.get(&memory), u64::MAX);
}
