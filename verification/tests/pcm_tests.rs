use mp4_audio_extractor::pcm::sample_words;

#[test]
fn little_endian_words() {
    let bytes = vec![0x00, 0x00, 0x80, 0x3f, 0x01, 0x02, 0x03, 0x04];
    assert_eq!(sample_words(&bytes), vec![0x3f80_0000, 0x0403_0201]);
    assert_eq!(f32::from_bits(sample_words(&bytes)[0]), 1.0f32);
}

#[test]
fn partial_sample_dropped() {
    let bytes = vec![0xff, 0xff, 0xff, 0xff, 0x01, 0x02];
    assert_eq!(sample_words(&bytes), vec![u32::MAX]);
    assert!(sample_words(&vec![1, 2, 3]).is_empty());
}

#[test]
fn same_as_float_decoding() {
    let values = [0.5f32, -1.25, 3.0e-5, f32::MAX];
    let mut bytes = Vec::new();
    for v in values {
        bytes.extend_from_slice(&v.to_le_bytes());
    }
    let decoded: Vec<f32> = sample_words(&bytes).into_iter().map(f32::from_bits).collect();
    assert_eq!(decoded, values.to_vec());
}
