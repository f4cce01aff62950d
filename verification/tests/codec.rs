use mara::codec::{encode_request, encode_response, try_decode_frame, FrameKind, MaraCodec, ProtoError, HEADER_LEN, PROTOCOL_VERSION};
use uuid::Uuid;

#[test]
fn request_round_trips_through_a_frame() {
    let body = b"get handbook onboarding.md#12".to_vec();
    let request_id = Uuid::new_v4().as_u128();
    let bytes = encode_request(request_id, &body);

    let (frame, consumed) = try_decode_frame(&bytes).unwrap().unwrap();
    assert_eq!(consumed, bytes.len());
    assert_eq!(frame.kind, FrameKind::Request);
    assert_eq!(frame.request_id, request_id);
    assert_eq!(frame.body, body);
}

#[test]
fn incomplete_buffer_returns_none_not_error() {
    let bytes = encode_request(Uuid::new_v4().as_u128(), &b"hello cli cli-7f21".to_vec());
    // Header present but body truncated.
    assert!(try_decode_frame(&bytes[..HEADER_LEN]).unwrap().is_none());
    assert!(try_decode_frame(&bytes[..bytes.len() - 1]).unwrap().is_none());
    // Too short even for a header.
    assert!(try_decode_frame(&bytes[..5]).unwrap().is_none());
}

#[test]
fn two_frames_back_to_back_decode_independently() {
    let mut buf = encode_request(Uuid::new_v4().as_u128(), &b"get c k".to_vec());
    buf.extend(encode_response(Uuid::new_v4().as_u128(), &b"ok".to_vec()));

    let (frame1, consumed1) = try_decode_frame(&buf).unwrap().unwrap();
    assert_eq!(frame1.kind, FrameKind::Request);
    let (frame2, consumed2) = try_decode_frame(&buf[consumed1..]).unwrap().unwrap();
    assert_eq!(frame2.kind, FrameKind::Response);
    assert_eq!(consumed1 + consumed2, buf.len());
}

#[test]
fn rejects_unsupported_version() {
    let mut bytes = encode_request(Uuid::new_v4().as_u128(), &b"delete c k".to_vec());
    bytes[0] = 99;
    let err = try_decode_frame(&bytes).unwrap_err();
    assert!(matches!(err, ProtoError::UnsupportedVersion(99, PROTOCOL_VERSION)));
}

#[test]
fn the_header_is_laid_out_byte_by_byte() {
    let bytes = encode_response(0x0102_0304_0506_0708_090a_0b0c_0d0e_0f10, &vec![0xaa, 0xbb]);
    assert_eq!(bytes.len(), HEADER_LEN + 2);
    assert_eq!(bytes[0], PROTOCOL_VERSION);
    assert_eq!(bytes[1], 1);
    assert_eq!(bytes[bytes.len() - 2..], [0xaa, 0xbb]);
    let id: Vec<u8> = (1..=16).collect();
    assert!(bytes.windows(16).any(|w| w == id.as_slice()), "the id is written most significant byte first");
}

#[test]
fn an_unknown_kind_byte_is_refused() {
    let mut bytes = encode_request(1, &vec![]);
    bytes[1] = 7;
    assert_eq!(try_decode_frame(&bytes).err(), Some(ProtoError::InvalidFrameKind(7)));
}

#[test]
fn the_codec_takes_whole_frames_only() {
    let mut codec = MaraCodec;
    let frame = encode_request(5, &b"abc".to_vec());
    let mut src = frame[..frame.len() - 1].to_vec();
    assert!(codec.decode(&mut src).unwrap().is_none());
    src.push(frame[frame.len() - 1]);
    src.push(9);
    let decoded = codec.decode(&mut src).unwrap().unwrap();
    assert_eq!(decoded.request_id, 5);
    assert_eq!(decoded.body, b"abc");
    assert_eq!(src, vec![9]);
    let mut dst = vec![1];
    codec.encode(vec![2, 3], &mut dst);
    assert_eq!(dst, vec![1, 2, 3]);
}
