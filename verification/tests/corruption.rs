//! Corruption handling: a flipped byte must never be silently accepted as
//! output of the wrong length, and a back-reference reaching beyond the
//! bytes produced so far must be rejected as a data error.

use lzma::context::{idx_match, len_base, probs_len};
use lzma::{
    lzma_decode, lzma_encode, pack_props, Allocator, FinishMode, Props, RangeEncoder, Status,
    PROB_INIT,
};

#[test]
fn single_byte_flips_never_give_inconsistent_output() {
    let data = b"corruption test payload: abcabcabcabc, corruption test payload".to_vec();
    let props = Props::default();
    let (compressed, props_bytes) = lzma_encode(&data, &props, Allocator::default()).unwrap();
    for i in 0..compressed.len() {
        for mask in [0x01u8, 0xff] {
            let mut bad = compressed.clone();
            bad[i] ^= mask;
            match lzma_decode(
                data.len(),
                &bad,
                &props_bytes,
                FinishMode::End,
                Allocator::default(),
            ) {
                // Still decodes: the output must have exactly the declared
                // length.
                Ok((out, used)) => {
                    assert_eq!(out.len(), data.len());
                    assert!(used <= bad.len());
                },
                // Or the corruption is reported; either way nothing is
                // silently inconsistent.
                Err(e) => {
                    assert!(matches!(
                        e,
                        Status::DataError | Status::InsufficientInput | Status::InsufficientOutput
                    ));
                },
            }
        }
    }
}

#[test]
fn truncated_stream_reports_insufficient_input() {
    let data = b"some payload that compresses to more than five bytes".to_vec();
    let props = Props::default();
    let (compressed, props_bytes) = lzma_encode(&data, &props, Allocator::default()).unwrap();
    let short = compressed[..3].to_vec();
    assert_eq!(
        lzma_decode(data.len(), &short, &props_bytes, FinishMode::End, Allocator::default()),
        Err(Status::InsufficientInput)
    );
}

#[test]
fn nonzero_lead_byte_is_a_data_error() {
    let data = b"lead byte check".to_vec();
    let props = Props::default();
    let (mut compressed, props_bytes) = lzma_encode(&data, &props, Allocator::default()).unwrap();
    compressed[0] = 1;
    assert_eq!(
        lzma_decode(data.len(), &compressed, &props_bytes, FinishMode::End, Allocator::default()),
        Err(Status::DataError)
    );
}

/// Adversarial stream: the very first symbol is a match, though no byte has
/// been produced yet. The decoder must reject the distance.
#[test]
fn decoder_rejects_distance_beyond_window() {
    let props = Props::default();
    let mut probs = vec![PROB_INIT; probs_len(&props)];
    let mut rc = RangeEncoder::new();
    // Match flag at position 0, a length of two, and a distance of 5001
    // while zero bytes exist in the window.
    rc.encode_bit(&mut probs, idx_match(&props, 0), true);
    rc.encode_tree_byte(&mut probs, len_base(&props), 0);
    rc.encode_direct_u32(5000);
    rc.flush();
    let stream = rc.take_output();
    assert_eq!(
        lzma_decode(16, &stream, &pack_props(&props), FinishMode::Any, Allocator::default()),
        Err(Status::DataError)
    );
}

/// Adversarial stream: one literal, then a match reaching two bytes back.
#[test]
fn decoder_rejects_distance_past_produced_bytes() {
    let props = Props::default();
    let mut probs = vec![PROB_INIT; probs_len(&props)];
    let mut rc = RangeEncoder::new();
    rc.encode_bit(&mut probs, idx_match(&props, 0), false);
    let base = lzma::context::lit_base(&props, 0, 0);
    rc.encode_tree_byte(&mut probs, base, b'a');
    rc.encode_bit(&mut probs, idx_match(&props, 1), true);
    rc.encode_tree_byte(&mut probs, len_base(&props), 0);
    rc.encode_direct_u32(1);  // distance 2, but only 1 byte produced
    rc.flush();
    let stream = rc.take_output();
    assert_eq!(
        lzma_decode(16, &stream, &pack_props(&props), FinishMode::Any, Allocator::default()),
        Err(Status::DataError)
    );
}

/// A match that would run past the declared output length is reported as
/// the output buffer being too small.
#[test]
fn overlong_match_reports_insufficient_output() {
    let props = Props::default();
    let mut probs = vec![PROB_INIT; probs_len(&props)];
    let mut rc = RangeEncoder::new();
    rc.encode_bit(&mut probs, idx_match(&props, 0), false);
    let base = lzma::context::lit_base(&props, 0, 0);
    rc.encode_tree_byte(&mut probs, base, b'a');
    rc.encode_bit(&mut probs, idx_match(&props, 1), true);
    rc.encode_tree_byte(&mut probs, len_base(&props), 255);  // length 257
    rc.encode_direct_u32(0);  // distance 1
    rc.flush();
    let stream = rc.take_output();
    assert_eq!(
        lzma_decode(10, &stream, &pack_props(&props), FinishMode::Any, Allocator::default()),
        Err(Status::InsufficientOutput)
    );
}

/// Under the terminated finish mode, a stream without its marker at the
/// declared end is rejected.
#[test]
fn missing_end_marker_is_a_data_error() {
    let data = b"abcabcabcabc".to_vec();
    let props = Props::default();
    let (compressed, props_bytes) = lzma_encode(&data, &props, Allocator::default()).unwrap();
    // Declare one byte less than was encoded: the marker is then not at
    // the declared end.
    let r = lzma_decode(
        data.len() - 1,
        &compressed,
        &props_bytes,
        FinishMode::End,
        Allocator::default(),
    );
    assert!(r.is_err());
}
