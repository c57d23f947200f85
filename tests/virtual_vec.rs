use thingstore::virtual_vec::VirtualVec;

#[test]
fn virtual_vec_create_destroy() {
    let vec = VirtualVec::<i32>::new(4096);
    assert_eq!(vec.is_empty(), true);
    assert_eq!(vec.mapping(), 4096);
    assert_eq!(vec.capacity(), 0);
    assert_eq!(vec.len(), 0);
    drop(vec);
}

#[test]
fn push() {
    let mut vec = VirtualVec::<i32>::new(1 << 16);

    for i in 0..1 << 16 {
        vec.push(i);
    }

    assert_eq!(vec.len(), 1 << 16);
    assert_eq!(vec.capacity(), 1 << 16);

    for (i, v) in vec.as_slice().iter().enumerate() {
        assert_eq!(i as i32, *v);
    }

    vec.clear();

    assert_eq!(vec.len(), 0);
    assert_eq!(vec.capacity(), 65536);

    drop(vec);
}

#[test]
fn growth_steps() {
    let mut vec = VirtualVec::<u8>::new(64);
    vec.push(1);
    assert_eq!(vec.capacity(), 4);
    vec.reserve(10);
    assert_eq!(vec.capacity(), 14);
    vec.reserve(13);
    assert_eq!(vec.capacity(), 14);
    vec.reserve(63);
    assert_eq!(vec.capacity(), 64);
}

#[test]
fn elements_never_move() {
    let mut vec = VirtualVec::<u64>::new(1 << 12);
    vec.push(11);
    let first = vec.as_slice().as_ptr();
    for i in 0..4000u64 {
        vec.push(i);
        if i % 100 == 0 {
            vec.reserve(50);
        }
        assert_eq!(vec.as_slice().as_ptr(), first);
    }
    assert_eq!(vec.as_slice()[0], 11);
    assert_eq!(*vec.get(1), 0);
}

#[test]
fn push_pop_rounds_keep_capacity() {
    let mut vec = VirtualVec::<u32>::new(256);
    vec.push(1);
    assert_eq!(vec.pop(), Some(1));
    let cap = vec.capacity();
    assert_eq!(cap, 16);
    for n in 0..1000 {
        vec.push(n);
        assert_eq!(vec.pop(), Some(n));
        assert_eq!(vec.len(), 0);
        assert_eq!(vec.capacity(), cap);
    }
    assert_eq!(vec.pop(), None);
}

#[test]
fn insert_remove_swap_remove() {
    let mut vec = VirtualVec::<u32>::new(32);
    for i in 0..5 {
        vec.push(i);
    }
    vec.insert(2, 9);
    assert_eq!(vec.as_slice(), &[0, 1, 9, 2, 3, 4]);
    assert_eq!(vec.remove(0), 0);
    assert_eq!(vec.as_slice(), &[1, 9, 2, 3, 4]);
    assert_eq!(vec.swap_remove(1), 9);
    assert_eq!(vec.as_slice(), &[1, 4, 2, 3]);
    assert_eq!(vec.replace(0, 7), 1);
    vec.truncate(2);
    assert_eq!(vec.as_slice(), &[7, 4]);
    vec.truncate(5);
    assert_eq!(vec.len(), 2);
    let cap = vec.capacity();
    vec.clear();
    assert!(vec.is_empty());
    assert_eq!(vec.capacity(), cap);
}
