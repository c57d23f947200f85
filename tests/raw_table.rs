use thingstore::raw_table::RawTable;

const TABLE_SIZE: usize = 65536;

#[test]
fn allocate_deallocate() {
    let mut table = RawTable::<TABLE_SIZE>::new();
    let handles = (0..(TABLE_SIZE - 1))
        .map(|_| table.allocate_handle())
        .collect::<Vec<_>>();
    for handle in handles {
        table.invalidate(handle);
        table.release_handle(handle);
    }
}

#[test]
fn default_invalid() {
    let mut table = RawTable::<TABLE_SIZE>::new();
    let valid_handle = table.allocate_handle();
    assert_eq!(table.get(0), None);
    assert!(table.get(valid_handle).is_some());
    table.invalidate(valid_handle);
    assert!(table.get(valid_handle).is_none());
}

#[test]
fn fresh_handles_resolve() {
    let mut table = RawTable::<16>::new();
    let mut handles = Vec::new();
    for _ in 0..15 {
        let h = table.allocate_handle();
        assert!(table.get(h).is_some());
        handles.push(h);
    }
    for h in &handles {
        assert!(table.get(*h).is_some());
    }
    assert_eq!(table.free_count(), 0);
}

#[test]
fn first_handle_value() {
    // Index 0 with the generation bits of the zeroed slot, inverted.
    let mut table = RawTable::<16>::new();
    let h = table.allocate_handle();
    assert_eq!(h, !(0u32 | 0xffff_fff0));
    assert_eq!(h, 0x0000_000f);
    assert_eq!(table.get(h), Some(15));
}

#[test]
fn set_and_get() {
    let mut table = RawTable::<16>::new();
    let h = table.allocate_handle();
    assert!(table.set(h, 7));
    assert_eq!(table.get(h), Some(7));
    assert!(table.set(h, 15));
    assert_eq!(table.get(h), Some(15));
    assert!(!table.set(0, 3));
}

#[test]
fn invalidated_handle_misses_get_and_set() {
    let mut table = RawTable::<16>::new();
    let h = table.allocate_handle();
    assert!(table.set(h, 5));
    table.invalidate(h);
    assert_eq!(table.get(h), None);
    assert!(!table.set(h, 6));
    assert_eq!(table.get(h), None);
    // Rebuilding the same bit pattern does not bring it back.
    let again = h;
    assert_eq!(table.get(again), None);
    // Invalidating again keeps it stale.
    table.invalidate(h);
    assert_eq!(table.get(h), None);
}

#[test]
fn release_then_allocate_never_reissues() {
    let mut table = RawTable::<4>::new();
    let a = table.allocate_handle();
    let b = table.allocate_handle();
    let c = table.allocate_handle();
    table.invalidate(b);
    table.release_handle(b);
    let d = table.allocate_handle();
    assert_ne!(d, b);
    assert_ne!(d, a);
    assert_ne!(d, c);
    // Same index, next generation.
    assert_eq!(!d & 3, !b & 3);
    assert_eq!(table.get(b), None);
    assert!(table.get(d).is_some());
    assert!(table.get(a).is_some());
    assert!(table.get(c).is_some());
}

#[test]
fn released_indices_come_back_in_order() {
    let mut table = RawTable::<8>::new();
    let hs: Vec<u32> = (0..7).map(|_| table.allocate_handle()).collect();
    table.invalidate(hs[4]);
    table.release_handle(hs[4]);
    table.invalidate(hs[1]);
    table.release_handle(hs[1]);
    let x = table.allocate_handle();
    let y = table.allocate_handle();
    assert_eq!(!x & 7, 4);
    assert_eq!(!y & 7, 1);
}

#[test]
fn index_width_two_has_three_slots() {
    let mut table = RawTable::<4>::new();
    assert_eq!(table.free_count(), 3);
    let a = table.allocate_handle();
    let b = table.allocate_handle();
    let c = table.allocate_handle();
    assert_eq!(table.free_count(), 0);
    assert_eq!(table.try_allocate_handle(), None);
    let indices = [!a & 3, !b & 3, !c & 3];
    assert_eq!(indices, [0, 1, 2]);
    assert!(table.get(a).is_some() && table.get(b).is_some() && table.get(c).is_some());
}
