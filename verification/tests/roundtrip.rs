//! Round-trip coverage: encode then decode must reproduce the input, for
//! empty, tiny, repetitive, pseudo-random, and dictionary-boundary data.

use lzma::{lzma_decode, lzma_encode, pack_props, Allocator, FinishMode, Props};

fn roundtrip_with(input: &[u8], props: &Props) {
    let data: Vec<u8> = input.to_vec();
    let (compressed, props_bytes) =
        lzma_encode(&data, props, Allocator::default()).expect("encode failed");
    let (output, used) = lzma_decode(
        data.len(),
        &compressed,
        &props_bytes,
        FinishMode::End,
        Allocator::default(),
    )
    .expect("decode failed");
    assert_eq!(output.len(), data.len());
    assert_eq!(output, data);
    assert_eq!(used, compressed.len());
}

#[test]
fn test_lzma_round_trip() {
    let input = b"Hello LZMA compression!";
    let props = Props::default();
    let alloc = Allocator::default();

    let res = lzma_encode(&input.to_vec(), &props, alloc);
    assert!(res.is_ok());
    let (compressed, props_bytes) = res.unwrap();
    assert_eq!(props_bytes, pack_props(&props));

    let res = lzma_decode(
        input.len(),
        &compressed,
        &props_bytes,
        FinishMode::End,
        Allocator::default(),
    );
    assert!(res.is_ok());
    let (dest, _used) = res.unwrap();

    assert_eq!(dest.len(), input.len());
    assert_eq!(&dest[..], &input[..]);
}

#[test]
fn roundtrip_empty_input_minimal_output() {
    let props = Props::default();
    let (compressed, props_bytes) =
        lzma_encode(&Vec::new(), &props, Allocator::default()).expect("encode failed");
    // The empty stream has a small fixed size: the zero lead byte, the
    // coded end marker, and the flush.
    assert!(compressed.len() <= 16);
    let again = lzma_encode(&Vec::new(), &props, Allocator::default()).unwrap().0;
    assert_eq!(compressed, again);
    let (output, _) = lzma_decode(
        0,
        &compressed,
        &props_bytes,
        FinishMode::End,
        Allocator::default(),
    )
    .expect("decode failed");
    assert_eq!(output.len(), 0);
}

#[test]
fn roundtrip_single_byte() {
    roundtrip_with(b"z", &Props::default());
}

#[test]
fn roundtrip_repetitive() {
    let mut data = Vec::new();
    for i in 0..4000usize {
        data.push(b"abcabcab"[i % 8]);
    }
    roundtrip_with(&data, &Props::default());
}

#[test]
fn roundtrip_pseudo_random() {
    let mut state: u64 = 0x1234_5678_9abc_def0;
    let mut data = Vec::new();
    for _ in 0..6000 {
        state = state.wrapping_mul(6364136223846793005).wrapping_add(1442695040888963407);
        data.push((state >> 56) as u8);
    }
    roundtrip_with(&data, &Props::default());
}

#[test]
fn roundtrip_at_dictionary_boundary() {
    // Input longer than the dictionary: distances stay clamped to the
    // window, and the round trip must still hold.
    let mut props = Props::default();
    props.dict_size = 4096;
    let mut data = Vec::new();
    for i in 0..(4096 + 1000) {
        data.push(((i * 7) % 251) as u8);
    }
    roundtrip_with(&data, &props);
}

#[test]
fn roundtrip_maximum_dictionary_size() {
    let mut props = Props::default();
    props.dict_size = u32::MAX;
    let mut data = Vec::new();
    for i in 0..3000usize {
        data.push(b"wide window "[i % 12]);
    }
    roundtrip_with(&data, &props);
}

#[test]
fn roundtrip_all_valid_context_knobs() {
    let mut data = Vec::new();
    for i in 0..2000usize {
        data.push(if i % 13 == 0 { b'x' } else { (i % 256) as u8 });
    }
    for lc in 0..5u8 {
        for lp in 0..(5 - lc) {
            for pb in 0..5u8 {
                let mut props = Props::default();
                props.lc = lc;
                props.lp = lp;
                props.pb = pb;
                roundtrip_with(&data[..500], &props);
            }
        }
    }
}

#[test]
fn roundtrip_finish_any_stops_at_declared_length() {
    // Without the end marker the decoder relies on the declared length.
    let data = b"stream without terminator, stream without terminator".to_vec();
    let props = Props::default();
    let mut enc = lzma::Encoder::create(Allocator::default());
    enc.set_props(&props).unwrap();
    let compressed = enc.encode(&data, FinishMode::End).unwrap();
    let (output, _) = lzma_decode(
        data.len(),
        &compressed,
        &pack_props(&props),
        FinishMode::Any,
        Allocator::default(),
    )
    .expect("decode failed");
    assert_eq!(output, data);
}
