use barnes_hut::slice_alloc::{AllocError, SliceAlloc};

#[test]
fn wrap_starts_empty() {
    let arena = SliceAlloc::wrap(vec![0u32; 4]);
    assert_eq!(arena.len(), 0);
    assert_eq!(arena.slots(), 4);
    assert!(arena.as_slice().is_empty());
}

#[test]
fn reserve_hands_out_slots_in_order() {
    let mut arena = SliceAlloc::wrap(vec![0u32; 3]);
    let a = arena.reserve().unwrap();
    let b = arena.reserve().unwrap();
    let c = arena.reserve().unwrap();
    assert_eq!(a.index(), 0);
    assert_eq!(b.index(), 1);
    assert_eq!(c.index(), 2);
    assert_eq!(arena.len(), 3);
    assert_eq!(c.into(), 2);
}

#[test]
fn reserve_fails_when_full() {
    let mut arena = SliceAlloc::wrap(vec![7u32; 1]);
    let first = arena.reserve();
    assert!(first.is_ok());
    let second = arena.reserve();
    assert!(matches!(second, Err(AllocError::CapacityExceeded)));
    assert_eq!(arena.len(), 1);
    let third = arena.reserve();
    assert!(matches!(third, Err(AllocError::CapacityExceeded)));
    assert_eq!(arena.len(), 1);
}

#[test]
fn reserve_on_empty_buffer_fails() {
    let mut arena: SliceAlloc<u8> = SliceAlloc::wrap(Vec::new());
    assert!(matches!(arena.reserve(), Err(AllocError::CapacityExceeded)));
    assert_eq!(arena.len(), 0);
}

#[test]
fn write_then_read_gives_the_value() {
    let mut arena = SliceAlloc::wrap(vec![0u32; 3]);
    let a = arena.reserve().unwrap();
    let b = arena.reserve().unwrap();
    arena.write(&b, 22);
    arena.write(&a, 11);
    assert_eq!(*arena.read(&a), 11);
    assert_eq!(*arena.read(&b), 22);
    assert_eq!(arena.as_slice(), &[11, 22]);
}

#[test]
fn write_leaves_other_slots_alone() {
    let mut arena = SliceAlloc::wrap(vec![5u32, 6, 7]);
    let a = arena.reserve().unwrap();
    let b = arena.reserve().unwrap();
    arena.write(&b, 60);
    assert_eq!(*arena.read(&a), 5);
    assert_eq!(arena.into_inner(), vec![5, 60, 7]);
}

#[test]
fn reset_forgets_reservations_and_keeps_contents() {
    let mut arena = SliceAlloc::wrap(vec![0u32; 2]);
    let a = arena.reserve().unwrap();
    arena.write(&a, 9);
    arena.reset();
    assert_eq!(arena.len(), 0);
    assert_eq!(arena.slots(), 2);
    let again = arena.reserve().unwrap();
    assert_eq!(again.index(), 0);
    assert_eq!(*arena.read(&again), 9);
}

#[test]
fn len_counts_only_successful_reservations() {
    let mut arena = SliceAlloc::wrap(vec![0u8; 2]);
    for _ in 0..5 {
        let _ = arena.reserve();
    }
    assert_eq!(arena.len(), 2);
}

#[test]
fn error_message_names_the_capacity() {
    assert_eq!(AllocError::CapacityExceeded.message(), "arena capacity exceeded");
}
