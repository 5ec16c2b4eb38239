use bcrypt_shim::arena::{Arena, ARENA_CAPACITY, ALIGN};
use bcrypt_shim::bridge::{alloc_error_handler, panic_message, FatalError};

#[test]
fn alloc_dealloc_pairs_never_exhaust() {
    let mut a = Arena::new();
    for _ in 0..200 {
        let addr = a.allocate(1000).expect("pair allocation must be served");
        a.release(addr, 1000);
    }
    // after all pairs the arena still serves a full-capacity request
    let addr = a.allocate(ARENA_CAPACITY).expect("full-capacity allocation must be served");
    assert_eq!(addr, 0);
}

#[test]
fn oversized_allocation_is_fatal() {
    let mut a = Arena::new();
    assert_eq!(
        a.allocate(ARENA_CAPACITY + 1),
        Err(FatalError::OutOfMemory { requested: ARENA_CAPACITY + 1 })
    );
    assert_eq!(
        a.allocate(usize::MAX),
        Err(FatalError::OutOfMemory { requested: usize::MAX })
    );
    // the failed requests must not have damaged the arena
    assert!(a.allocate(ARENA_CAPACITY).is_ok());
}

#[test]
fn exhaustion_and_recovery() {
    let mut a = Arena::new();
    let addr = a.allocate(ARENA_CAPACITY).expect("whole arena");
    assert_eq!(a.allocate(8), Err(FatalError::OutOfMemory { requested: 8 }));
    a.release(addr, ARENA_CAPACITY);
    assert!(a.allocate(16).is_ok());
}

#[test]
fn served_blocks_are_aligned_and_disjoint() {
    let mut a = Arena::new();
    let a1 = a.allocate(100).unwrap();
    let a2 = a.allocate(100).unwrap();
    assert_eq!(a1 % ALIGN, 0);
    assert_eq!(a2 % ALIGN, 0);
    // blocks of 100 bytes round up to 104; the runs must not overlap
    assert!(a1 + 104 <= a2 || a2 + 104 <= a1);
}

#[test]
fn zero_sized_requests_get_distinct_addresses() {
    let mut a = Arena::new();
    let a1 = a.allocate(0).unwrap();
    let a2 = a.allocate(0).unwrap();
    assert_ne!(a1, a2);
}

#[test]
fn write_then_read_roundtrip() {
    let mut a = Arena::new();
    let addr = a.allocate(16).unwrap();
    a.write_bytes(addr, b"sixteen bytes!!!");
    assert_eq!(a.read_bytes(addr, 16), b"sixteen bytes!!!".to_vec());
}

#[test]
fn alloc_error_handler_renders_request_size() {
    let msg = alloc_error_handler(4096);
    assert_eq!(msg, b"Memory allocation of 4096 bytes failed".to_vec());
    let msg = alloc_error_handler(0);
    assert_eq!(msg, b"Memory allocation of 0 bytes failed".to_vec());
}

#[test]
fn panic_messages_render_each_fatal_condition() {
    assert_eq!(
        panic_message(&FatalError::BadSaltLength),
        b"Salt is not 16 bytes long".to_vec()
    );
    assert_eq!(
        panic_message(&FatalError::BadVersion { version: 300 }),
        b"Invalid version: 300".to_vec()
    );
    assert_eq!(
        panic_message(&FatalError::HashFailed),
        b"Failed to hash password".to_vec()
    );
    assert_eq!(
        panic_message(&FatalError::BadUtf8),
        b"Hash is invalid UTF-8".to_vec()
    );
    assert_eq!(
        panic_message(&FatalError::VerifyFailed),
        b"Failed to verify hash".to_vec()
    );
    assert_eq!(
        panic_message(&FatalError::OutputTooSmall),
        b"Output buffer is too small for the digest".to_vec()
    );
    assert_eq!(
        panic_message(&FatalError::OutOfMemory { requested: 72 }),
        b"Memory allocation of 72 bytes failed".to_vec()
    );
}
