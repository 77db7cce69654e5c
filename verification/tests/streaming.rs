//! Finish modes: encoding across several resumable calls with carried
//! state must equal one single terminated call over the concatenated input,
//! and the session state machine must reject out-of-order calls.

use lzma::{
    lzma_decode, lzma_encode, pack_props, Allocator, Encoder, FinishMode, Props, Status,
};

fn sample(n: usize) -> Vec<u8> {
    let mut data = Vec::new();
    let mut state: u64 = 7;
    for i in 0..n {
        state = state.wrapping_mul(6364136223846793005).wrapping_add(1442695040888963407);
        data.push(if i % 5 == 0 { b'=' } else { (state >> 58) as u8 });
    }
    data
}

#[test]
fn split_encode_equals_single_encode() {
    let props = Props::default();
    let data = sample(3000);
    let (single, props_bytes) = lzma_encode(&data, &props, Allocator::default()).unwrap();

    let mut enc = Encoder::create(Allocator::default());
    enc.set_props(&props).unwrap();
    let part1 = enc.encode(&data[..1100].to_vec(), FinishMode::Any).unwrap();
    let part2 = enc.encode(&data[1100..].to_vec(), FinishMode::End).unwrap();
    let mut split = part1;
    split.extend_from_slice(&part2);
    assert_eq!(split, single);

    let (output, _) = lzma_decode(
        data.len(),
        &split,
        &props_bytes,
        FinishMode::End,
        Allocator::default(),
    )
    .unwrap();
    assert_eq!(output, data);
}

#[test]
fn three_way_split_encode_equals_single_encode() {
    let props = Props::default();
    let data = sample(2400);
    let (single, _) = lzma_encode(&data, &props, Allocator::default()).unwrap();

    let mut enc = Encoder::create(Allocator::default());
    enc.set_props(&props).unwrap();
    let mut split = Vec::new();
    split.extend_from_slice(&enc.encode(&data[..700].to_vec(), FinishMode::Any).unwrap());
    split.extend_from_slice(&enc.encode(&data[700..1500].to_vec(), FinishMode::Any).unwrap());
    split.extend_from_slice(&enc.encode(&data[1500..].to_vec(), FinishMode::End).unwrap());
    assert_eq!(split, single);
}

#[test]
fn split_encode_equals_single_encode_on_long_matches() {
    // Long repeated runs make matches that would cross the split boundary;
    // the held-back tail keeps the parses identical.
    let props = Props::default();
    let mut data = vec![b'a'; 1500];
    for i in 0..1400usize {
        data.push(b"xyz"[i % 3]);
    }
    let (single, props_bytes) = lzma_encode(&data, &props, Allocator::default()).unwrap();

    for split in [1, 255, 256, 257, 1000, 1499, 2899] {
        let mut enc = Encoder::create(Allocator::default());
        enc.set_props(&props).unwrap();
        let mut joined = enc.encode(&data[..split].to_vec(), FinishMode::Any).unwrap();
        joined.extend_from_slice(&enc.encode(&data[split..].to_vec(), FinishMode::End).unwrap());
        assert_eq!(joined, single);
    }

    let (output, _) = lzma_decode(
        data.len(),
        &single,
        &props_bytes,
        FinishMode::End,
        Allocator::default(),
    )
    .unwrap();
    assert_eq!(output, data);
}

#[test]
fn session_rejects_out_of_order_calls() {
    let props = Props::default();
    let mut enc = Encoder::create(Allocator::default());
    // Encoding before configuration is rejected.
    assert_eq!(
        enc.encode(&b"x".to_vec(), FinishMode::Any),
        Err(Status::InvalidConfiguration)
    );
    assert_eq!(enc.set_props(&props), Ok(()));
    // Reconfiguring is rejected.
    assert_eq!(enc.set_props(&props), Err(Status::InvalidConfiguration));
    let _ = enc.encode(&b"payload".to_vec(), FinishMode::End).unwrap();
    // The terminated session takes no more input.
    assert_eq!(
        enc.encode(&b"more".to_vec(), FinishMode::Any),
        Err(Status::InvalidConfiguration)
    );
}

#[test]
fn set_props_rejects_invalid_configuration() {
    let mut bad = Props::default();
    bad.lc = 4;
    bad.lp = 1;
    let mut enc = Encoder::create(Allocator::default());
    assert_eq!(enc.set_props(&bad), Err(Status::InvalidConfiguration));
    assert_eq!(lzma_encode(&Vec::new(), &bad, Allocator::default()), Err(Status::InvalidConfiguration));
}

#[test]
fn decoder_session_is_single_shot() {
    let props = Props::default();
    let data = b"decoder session test".to_vec();
    let (compressed, props_bytes) = lzma_encode(&data, &props, Allocator::default()).unwrap();
    let mut dec = lzma::Decoder::create(Allocator::default(), &props_bytes).unwrap();
    let (out, _) = dec.decode(&compressed, data.len(), FinishMode::End).unwrap();
    assert_eq!(out, data);
    // A second call on the spent session is rejected.
    assert_eq!(
        dec.decode(&compressed, data.len(), FinishMode::End),
        Err(Status::InvalidConfiguration)
    );
}

#[test]
fn finish_any_state_stays_open() {
    let props = Props::default();
    let mut enc = Encoder::create(Allocator::default());
    enc.set_props(&props).unwrap();
    let _ = enc.encode(&sample(100), FinishMode::Any).unwrap();
    let _ = enc.encode(&sample(100), FinishMode::Any).unwrap();
    let _ = enc.encode(&Vec::new(), FinishMode::End).unwrap();
}
