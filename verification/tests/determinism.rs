//! Determinism: the same input with the same properties always yields
//! byte-identical compressed output.

use lzma::{lzma_encode, Allocator, Props};

#[test]
fn encode_twice_is_byte_identical() {
    let mut data = Vec::new();
    let mut state: u64 = 42;
    for i in 0..3000usize {
        state = state.wrapping_mul(6364136223846793005).wrapping_add(1442695040888963407);
        data.push(if i % 3 == 0 { b'-' } else { (state >> 56) as u8 });
    }
    let props = Props::default();
    let (first, first_props) = lzma_encode(&data, &props, Allocator::default()).unwrap();
    let (second, second_props) = lzma_encode(&data, &props, Allocator::default()).unwrap();
    assert_eq!(first, second);
    assert_eq!(first_props, second_props);
}

#[test]
fn decode_twice_is_identical() {
    let data = b"decode determinism payload, decode determinism payload".to_vec();
    let props = Props::default();
    let (compressed, props_bytes) = lzma_encode(&data, &props, Allocator::default()).unwrap();
    let first = lzma::lzma_decode(
        data.len(),
        &compressed,
        &props_bytes,
        lzma::FinishMode::End,
        Allocator::default(),
    )
    .unwrap();
    let second = lzma::lzma_decode(
        data.len(),
        &compressed,
        &props_bytes,
        lzma::FinishMode::End,
        Allocator::default(),
    )
    .unwrap();
    assert_eq!(first, second);
}

#[test]
fn search_knobs_change_only_the_parse_never_decodability() {
    // The fast/greedy knobs are a quality choice, not a protocol change:
    // every setting must produce a stream the decoder reads back exactly.
    let mut data = Vec::new();
    for i in 0..1500usize {
        data.push(b"mississippi river "[i % 18]);
    }
    for (algorithm, fast_bytes, depth) in
        [(0u32, 0u32, 0u32), (0, 4, 1), (1, 0, 64), (1, 273, 2), (0, 2, 32)]
    {
        let mut props = Props::default();
        props.algorithm = algorithm;
        props.fast_bytes = fast_bytes;
        props.match_finder_depth = depth;
        let (compressed, props_bytes) =
            lzma_encode(&data, &props, Allocator::default()).unwrap();
        let (out, _) = lzma::lzma_decode(
            data.len(),
            &compressed,
            &props_bytes,
            lzma::FinishMode::End,
            Allocator::default(),
        )
        .unwrap();
        assert_eq!(out, data);
    }
}

#[test]
fn encode_twice_is_byte_identical_other_knobs() {
    let data = b"the quick brown fox jumps over the lazy dog, twice over, the quick brown fox"
        .to_vec();
    let mut props = Props::default();
    props.lc = 0;
    props.lp = 2;
    props.pb = 1;
    props.algorithm = 0;
    let (first, _) = lzma_encode(&data, &props, Allocator::default()).unwrap();
    let (second, _) = lzma_encode(&data, &props, Allocator::default()).unwrap();
    assert_eq!(first, second);
}
