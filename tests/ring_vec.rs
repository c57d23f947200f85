use thingstore::ring_vec::RingVec;

#[test]
fn it_works() {
    let mut ring_vec = RingVec::new(4);
    ring_vec.push(1);
    ring_vec.push(2);
    ring_vec.push(3);
    ring_vec.push(4);
    assert!(ring_vec.is_full());
    assert_eq!(ring_vec.pop(), Some(1));
    assert_eq!(ring_vec.pop(), Some(2));
    assert_eq!(ring_vec.pop(), Some(3));
    assert_eq!(ring_vec.pop(), Some(4));
    assert!(ring_vec.is_empty());
}

#[test]
fn ring_vec_pop_empty() {
    let mut ring_vec: RingVec<u8> = RingVec::new(1);
    assert!(ring_vec.is_empty());
    assert_eq!(ring_vec.pop(), None);
    ring_vec.push(5);
    assert!(ring_vec.is_full());
    assert!(!ring_vec.is_empty());
}
