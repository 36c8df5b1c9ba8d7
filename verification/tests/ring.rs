use remapper::ring::Ring;

#[test]
fn x() {
    let mut q = Ring::new([0.0, 2.0, 5.0]);
    println!("{:?}", q.iter());
    assert_eq!(q.pop_front_push_back(6.0), 0.0);
    println!("{:?}", q.iter());
    assert_eq!(q.pop_front_push_back(3.0), 2.0);
    println!("{:?}", q.iter());
    assert_eq!(q.pop_front_push_back(4.0), 5.0);
    println!("{:?}", q.iter());
    assert_eq!(q.pop_front_push_back(7.0), 6.0);
    println!("{:?}", q.iter());
}

#[test]
fn ring_iter_reads_from_the_cursor() {
    let mut q = Ring::new([1u32, 2, 3, 4]);
    assert_eq!(q.iter(), vec![&1, &2, &3, &4]);
    q.pop_front_push_back(5);
    assert_eq!(q.iter(), vec![&2, &3, &4, &5]);
    q.pop_front_push_back(6);
    q.pop_front_push_back(7);
    assert_eq!(q.iter(), vec![&4, &5, &6, &7]);
}

#[test]
fn ring_is_a_queue_of_its_length() {
    // what goes in comes out N pops later
    let mut q = Ring::new([0u8; 5]);
    for i in 1..=5u8 {
        assert_eq!(q.pop_front_push_back(i), 0);
    }
    for i in 1..=5u8 {
        assert_eq!(q.pop_front_push_back(100 + i), i);
    }
    assert_eq!(q.iter(), vec![&101, &102, &103, &104, &105]);
}

#[test]
fn ring_of_one() {
    let mut q = Ring::new([9i32]);
    assert_eq!(q.pop_front_push_back(1), 9);
    assert_eq!(q.pop_front_push_back(2), 1);
    assert_eq!(q.iter(), vec![&2]);
}

#[test]
fn ring_of_zero_iterates_nothing() {
    let q: Ring<u8, 0> = Ring::new([]);
    assert!(q.iter().is_empty());
}

#[test]
fn ring_cursor_wraps_modulo_length_as_u8() {
    // 257 slots: the u8 cursor cycles over 257 % 256 = 1 slot
    let mut q = Ring::new([0u16; 257]);
    assert_eq!(q.pop_front_push_back(1), 0);
    assert_eq!(q.pop_front_push_back(2), 1);
    assert_eq!(q.pop_front_push_back(3), 2);
}

#[test]
fn ring_of_sixteen_errors() {
    let mut q = Ring::new([[0.0f32; 4]; 16]);
    for i in 0..16 {
        q.pop_front_push_back([i as f32; 4]);
    }
    let v = q.iter();
    assert_eq!(v.len(), 16);
    assert_eq!(*v[0], [0.0; 4]);
    assert_eq!(*v[15], [15.0; 4]);
}
