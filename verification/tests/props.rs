//! Property serialization: exact byte format, round trips over the whole
//! valid range, and rejection of malformed blobs.

use lzma::{pack_props, unpack_props, Props, Status};

#[test]
fn pack_format_exact_bytes() {
    let mut p = Props::default();
    p.lc = 3;
    p.lp = 0;
    p.pb = 2;
    p.dict_size = 0x12345678;
    let bytes = pack_props(&p);
    assert_eq!(bytes.len(), 5);
    assert_eq!(bytes[0], (2 * 5 + 0) * 9 + 3);
    assert_eq!(&bytes[1..], &[0x78, 0x56, 0x34, 0x12]);
}

#[test]
fn pack_unpack_round_trip_all_valid_knobs() {
    for lc in 0..5u8 {
        for lp in 0..(5 - lc) {
            for pb in 0..5u8 {
                for dict in [4096u32, 65536, 1 << 24, u32::MAX] {
                    let mut p = Props::default();
                    p.lc = lc;
                    p.lp = lp;
                    p.pb = pb;
                    p.dict_size = dict;
                    let q = unpack_props(&pack_props(&p)).expect("round trip failed");
                    assert_eq!((q.lc, q.lp, q.pb, q.dict_size), (lc, lp, pb, dict));
                }
            }
        }
    }
}

#[test]
fn unpack_rejects_short_buffer() {
    assert_eq!(unpack_props(&vec![]), Err(Status::InvalidConfiguration));
    assert_eq!(unpack_props(&vec![93, 0, 16, 0]), Err(Status::InvalidConfiguration));
}

#[test]
fn unpack_rejects_invalid_knobs() {
    // lc + lp beyond the invariant: lc = 4, lp = 1.
    let b0 = (0 * 5 + 1) * 9 + 4;
    assert_eq!(
        unpack_props(&vec![b0, 0, 16, 0, 0]),
        Err(Status::InvalidConfiguration)
    );
    // pb beyond the invariant: first byte of 225 decodes pb to 5.
    assert_eq!(
        unpack_props(&vec![225, 0, 16, 0, 0]),
        Err(Status::InvalidConfiguration)
    );
    // Dictionary below the minimum.
    assert_eq!(
        unpack_props(&vec![93, 255, 15, 0, 0]),
        Err(Status::InvalidConfiguration)
    );
}

#[test]
fn unpack_accepts_minimum_dictionary() {
    let q = unpack_props(&vec![93, 0, 16, 0, 0]).expect("should accept");
    assert_eq!(q.dict_size, 4096);
    assert_eq!((q.lc, q.lp, q.pb), (3, 0, 2));
}

#[test]
fn validity_check_matches_invariants() {
    let mut p = Props::default();
    assert!(p.is_valid());
    p.lc = 3;
    p.lp = 2;
    assert!(!p.is_valid());
    p.lp = 1;
    assert!(p.is_valid());
    p.pb = 5;
    assert!(!p.is_valid());
    p.pb = 4;
    p.dict_size = 4095;
    assert!(!p.is_valid());
}
