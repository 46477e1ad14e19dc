use voice2text::frames::{
    decode_samples, encode_frame, fill_start, fill_step, header_sample_count, payload_len,
    FillState, ReadOutcome,
};

#[test]
fn encodes_count_then_samples_little_endian() {
    let frame = encode_frame(&[1.0_f32.to_bits(), (-1.0_f32).to_bits()]);
    assert_eq!(&frame[0..4], &2u32.to_le_bytes());
    assert_eq!(&frame[4..8], &1.0f32.to_le_bytes());
    assert_eq!(&frame[8..12], &(-1.0f32).to_le_bytes());
    assert_eq!(frame.len(), 4 + 2 * 4);
}

#[test]
fn encodes_empty_audio_as_zero_count() {
    assert_eq!(encode_frame(&[]), 0u32.to_le_bytes().to_vec());
}

#[test]
fn frame_round_trips() {
    let samples: Vec<u32> = vec![0.5_f32.to_bits(), (-0.25_f32).to_bits(), 0, u32::MAX, 0x0102_0304];
    let frame = encode_frame(&samples);
    let header: [u8; 4] = [frame[0], frame[1], frame[2], frame[3]];
    let count = header_sample_count(&header);
    assert_eq!(count, 5);
    assert_eq!(payload_len(count), Some(20));
    assert_eq!(decode_samples(&frame[4..]), samples);
    assert_eq!(f32::from_bits(decode_samples(&frame[4..])[0]), 0.5);
}

#[test]
fn header_is_little_endian() {
    assert_eq!(header_sample_count(&[0x04, 0x03, 0x02, 0x01]), 0x0102_0304);
    assert_eq!(header_sample_count(&[0xff, 0xff, 0xff, 0xff]), u32::MAX);
}

#[test]
fn decode_ignores_a_partial_trailing_sample() {
    assert_eq!(decode_samples(&[1, 0, 0, 0, 9, 9]), vec![1]);
    assert_eq!(decode_samples(&[]), Vec::<u32>::new());
}

#[test]
fn filling_a_buffer_step_by_step() {
    assert!(matches!(fill_start(0), FillState::Filled));
    assert!(matches!(fill_start(8), FillState::Pending(0)));
    assert!(matches!(fill_step(0, 8, ReadOutcome::Read(3)), FillState::Pending(3)));
    assert!(matches!(fill_step(3, 8, ReadOutcome::Interrupted), FillState::Pending(3)));
    assert!(matches!(fill_step(3, 8, ReadOutcome::Read(5)), FillState::Filled));
    assert!(matches!(fill_step(3, 8, ReadOutcome::Read(0)), FillState::Ended));
    assert!(matches!(fill_step(3, 8, ReadOutcome::Failed), FillState::Failed));
}
