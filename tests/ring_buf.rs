use thingstore::ring_buf::RingBuf;

fn count<const N: usize>(ring_buf: &RingBuf<usize, N>) -> usize {
    let mut k = 0;
    while ring_buf.get(k).is_some() {
        k += 1;
    }
    k
}

#[test]
fn small_table() {
    let mut ring_buf = RingBuf::<u32, 1>::new();
    ring_buf.push_back(0);
    assert!(ring_buf.is_full());
}

#[test]
fn push_pop_wrap() {
    // Start the counters so that they wrap half way through a push sequence.
    let mut ring_buf = RingBuf::<_, 256>::new_at(0xffff_ffff - 100);
    for _ in 0..2 {
        for i in 0..200 {
            ring_buf.push_back(i);
            assert_eq!(ring_buf.len(), (i + 1) as usize);
        }
        assert_eq!(ring_buf.len(), 200);
        for i in 0..200 {
            assert_eq!(ring_buf.pop_front(), Some(i));
            assert_eq!(ring_buf.len(), (199 - i) as usize);
        }
    }
    assert_eq!(ring_buf.len(), 0);
}

#[test]
fn empty_full() {
    let mut ring_buf = RingBuf::<_, 2>::new();
    assert!(ring_buf.is_empty());
    assert!(!ring_buf.is_full());

    ring_buf.push_back(1);
    assert!(!ring_buf.is_full());
    assert!(!ring_buf.is_empty());

    ring_buf.push_back(2);
    assert!(!ring_buf.is_empty());
    assert!(ring_buf.is_full());

    assert_eq!(ring_buf.pop_front(), Some(1));
    assert!(!ring_buf.is_full());
    assert!(!ring_buf.is_empty());

    assert_eq!(ring_buf.pop_front(), Some(2));
    assert!(ring_buf.is_empty());
    assert!(!ring_buf.is_full());

    ring_buf.push_back(1);
    assert!(!ring_buf.is_full());
    assert!(!ring_buf.is_empty());

    ring_buf.push_back(2);
    assert!(ring_buf.is_full());
    assert!(!ring_buf.is_empty());

    assert_eq!(ring_buf.pop_front(), Some(1));
    assert!(!ring_buf.is_full());
    assert!(!ring_buf.is_empty());

    assert_eq!(ring_buf.pop_front(), Some(2));
    assert!(ring_buf.is_empty());
    assert!(!ring_buf.is_full());
}

#[test]
fn iterator() {
    let mut ring_buf = RingBuf::<usize, 128>::new();
    assert!(ring_buf.get(0).is_none());

    {
        for i in 0..100 {
            ring_buf.push_back(i);
            assert_eq!(ring_buf.len(), i + 1);
            assert_eq!(count(&ring_buf), i + 1);
        }

        {
            let mut i = 0;
            while let Some(x) = ring_buf.get(i) {
                assert_eq!(i, *x);
                i += 1
            }
        }

        for i in 0..100 {
            assert_eq!(ring_buf.pop_front(), Some(i));
        }
    }

    {
        for i in 0..100 {
            ring_buf.push_back(i);
            assert_eq!(ring_buf.len(), i + 1);
            assert_eq!(count(&ring_buf), i + 1);
        }

        {
            let mut i = 0;
            while let Some(x) = ring_buf.get(i) {
                assert_eq!(i, *x);
                i += 1
            }
        }
    }
}

#[test]
fn fifo_up_to_capacity() {
    for k in 0..=8u32 {
        let mut ring_buf = RingBuf::<u32, 8>::new();
        for i in 0..k {
            ring_buf.push_back(i * 10);
        }
        assert_eq!(ring_buf.is_full(), k == 8);
        for i in 0..k {
            assert!(!(ring_buf.is_full() && ring_buf.is_empty()));
            assert_eq!(ring_buf.pop_front(), Some(i * 10));
        }
        assert!(ring_buf.is_empty());
        assert_eq!(ring_buf.pop_front(), None);
    }
}

#[test]
fn capacity_and_get_past_back() {
    let mut ring_buf = RingBuf::<u8, 4>::new();
    assert_eq!(ring_buf.capacity(), 4);
    ring_buf.push_back(9);
    assert_eq!(ring_buf.get(0), Some(&9));
    assert_eq!(ring_buf.get(1), None);
}
