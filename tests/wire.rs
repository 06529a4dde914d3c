use sync_arena::wire::{declared_len, decode_frame, encode_frame, FrameError, MAX_PAYLOAD};

#[test]
fn frame_round_trip() {
    let payload: Vec<u8> = b"hello hello hello hello hello".to_vec();
    let frame = encode_frame(&payload);
    assert_ne!(frame, payload);
    assert_eq!(declared_len(&frame), payload.len() as u32);
    assert_eq!(&frame[..4], &(payload.len() as u32).to_le_bytes());
    assert_eq!(decode_frame(&frame), Ok(payload));
}

#[test]
fn empty_payload_round_trip() {
    let payload: Vec<u8> = Vec::new();
    let frame = encode_frame(&payload);
    assert_eq!(declared_len(&frame), 0);
    assert_eq!(decode_frame(&frame), Ok(payload));
}

#[test]
fn short_frame_is_truncated() {
    assert_eq!(decode_frame(&vec![1, 0, 0]), Err(FrameError::Truncated));
    assert_eq!(decode_frame(&vec![]), Err(FrameError::Truncated));
}

#[test]
fn oversized_frame_is_refused() {
    let declared = MAX_PAYLOAD + 1;
    let mut frame = declared.to_le_bytes().to_vec();
    frame.push(0);
    assert_eq!(decode_frame(&frame), Err(FrameError::TooLarge));
}

#[test]
fn garbage_frame_is_malformed() {
    let frame = vec![3, 0, 0, 0, 0xff];
    assert_eq!(decode_frame(&frame), Err(FrameError::Malformed));
}

#[test]
fn overlong_frame_is_refused() {
    let mut frame = 1u32.to_le_bytes().to_vec();
    frame.resize(sync_arena::wire::MAX_FRAME + 1, 0);
    assert_eq!(decode_frame(&frame), Err(FrameError::TooLarge));
}
