//! The budgeted allocation capability: exhaustion is reported as a status,
//! not a panic, and freed buffers restore the budget.

use lzma::{lzma_encode, Allocator, Encoder, Props, Status};

#[test]
fn allocate_within_budget_and_free_restores_it() {
    let mut a = Allocator::with_budget(1000);
    let buf = a.allocate(600).expect("within budget");
    assert_eq!(buf.len(), 600);
    assert!(buf.iter().all(|b| *b == 0));
    assert!(a.allocate(600).is_none());
    a.free(buf);
    assert!(a.allocate(600).is_some());
}

#[test]
fn word_allocations_charge_element_sizes() {
    let mut a = Allocator::with_budget(100);
    let w = a.allocate_words(50).expect("exactly the budget");
    assert_eq!(w.len(), 50);
    assert!(a.allocate_words(1).is_none());
    a.free_words(w);
    let x = a.allocate_index(25).expect("exactly the budget");
    assert_eq!(x.len(), 25);
    assert!(a.allocate_index(1).is_none());
}

#[test]
fn as_ref_borrows_the_capability() {
    let a = Allocator::default();
    let r = a.as_ref();
    let _ = r;
}

#[test]
fn encode_with_tiny_budget_reports_allocation_failure() {
    let data = b"budget test".to_vec();
    let props = Props::default();
    assert_eq!(
        lzma_encode(&data, &props, Allocator::with_budget(100)),
        Err(Status::AllocationFailure)
    );
}

#[test]
fn encode_with_enough_budget_succeeds() {
    let data = b"budget test".to_vec();
    let props = Props::default();
    // The probability table plus the match-finder hash table fit in a
    // megabyte for the default configuration.
    let r = lzma_encode(&data, &props, Allocator::with_budget(1 << 20));
    assert!(r.is_ok());
}

#[test]
fn destroy_returns_the_budget() {
    let props = Props::default();
    let mut enc = Encoder::create(Allocator::with_budget(1 << 20));
    enc.set_props(&props).unwrap();
    let alloc = enc.destroy();
    // Everything the session drew from the budget came back.
    let mut alloc = alloc;
    assert!(alloc.allocate(1 << 20).is_some());
}

#[test]
fn decoder_create_reports_allocation_failure() {
    let props = Props::default();
    let props_bytes = lzma::pack_props(&props);
    assert!(matches!(
        lzma::Decoder::create(Allocator::with_budget(10), &props_bytes),
        Err(Status::AllocationFailure)
    ));
}
