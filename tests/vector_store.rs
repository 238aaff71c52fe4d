use local_rag::vector_store::{bytes_to_embedding, embedding_to_bytes, score_rank_key, top_k};

fn bits(v: &[f32]) -> Vec<u32> {
    v.iter().map(|f| f.to_bits()).collect()
}

#[test]
fn test_embedding_bytes_roundtrip() {
    let original: Vec<f32> = vec![0.1, 0.2, -0.3, 0.4, 0.5];
    let bytes = embedding_to_bytes(&bits(&original));
    let recovered: Vec<f32> = bytes_to_embedding(&bytes)
        .iter()
        .map(|b| f32::from_bits(*b))
        .collect();

    assert_eq!(original.len(), recovered.len());
    for (a, b) in original.iter().zip(recovered.iter()) {
        assert!((a - b).abs() < 1e-7, "Mismatch: {} != {}", a, b);
    }
}

#[test]
fn encoding_is_little_endian_four_bytes_each() {
    let v: Vec<f32> = vec![1.0, -2.5];
    let bytes = embedding_to_bytes(&bits(&v));
    assert_eq!(bytes.len(), 8);
    assert_eq!(&bytes[0..4], &1.0f32.to_le_bytes());
    assert_eq!(&bytes[4..8], &(-2.5f32).to_le_bytes());
    assert_eq!(embedding_to_bytes(&[0x0403_0201]), vec![1, 2, 3, 4]);
}

#[test]
fn round_trip_is_bit_exact_for_special_values() {
    let v: Vec<f32> = vec![
        0.0,
        -0.0,
        f32::MIN_POSITIVE,
        f32::MAX,
        f32::MIN,
        f32::INFINITY,
        f32::NEG_INFINITY,
        f32::NAN,
        1.0e-45,
    ];
    let b = bits(&v);
    assert_eq!(bytes_to_embedding(&embedding_to_bytes(&b)), b);
}

#[test]
fn empty_vector_encodes_to_no_bytes() {
    assert!(embedding_to_bytes(&[]).is_empty());
    assert!(bytes_to_embedding(&[]).is_empty());
}

#[test]
fn trailing_partial_group_is_ignored() {
    assert_eq!(bytes_to_embedding(&[1, 0, 0, 0, 9, 9]), vec![1]);
}

#[test]
fn score_keys_follow_float_order() {
    let scores: Vec<f32> = vec![f32::NEG_INFINITY, -1.0, -0.5, -0.0, 0.0, 0.25, 0.5, 1.0, f32::INFINITY];
    for w in scores.windows(2) {
        assert!(score_rank_key(w[0].to_bits()) < score_rank_key(w[1].to_bits()));
    }
}

#[test]
fn top_k_orders_by_key_then_position() {
    let keys: Vec<u64> = vec![5, 9, 5, 1, 9, 7];
    assert_eq!(top_k(&keys, 4), vec![1, 4, 5, 0]);
    assert_eq!(top_k(&keys, 10), vec![1, 4, 5, 0, 2, 3]);
    assert_eq!(top_k(&keys, 0), Vec::<usize>::new());
    assert_eq!(top_k(&[], 3), Vec::<usize>::new());
}
