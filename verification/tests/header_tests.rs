use p2wviewer::error::{ErrorKind, PipelineError};
use p2wviewer::header::{Header, FORMAT_VERSION, HEADER_SIZE};

fn sample() -> Header {
    let mut nonce = [0u8; 12];
    let mut tag = [0u8; 16];
    let mut salt = [0u8; 16];
    for i in 0..12 {
        nonce[i] = i as u8 + 1;
    }
    for i in 0..16 {
        tag[i] = 0xa0 + i as u8;
        salt[i] = 0x10 + i as u8;
    }
    Header::new(1, nonce, tag, salt, 0x0102_0304, 0x0a0b_0c0d, 0x1122_3344_5566_7788)
}

#[test]
fn header_constants() {
    assert_eq!(HEADER_SIZE, 65);
    assert_eq!(FORMAT_VERSION, 1);
}

#[test]
fn header_new_keeps_fields() {
    let h = Header::new(7, [1; 12], [2; 16], [3; 16], 640, 480, 161);
    assert_eq!(h.version, 7);
    assert_eq!(h.nonce, [1; 12]);
    assert_eq!(h.auth_tag, [2; 16]);
    assert_eq!(h.salt, [3; 16]);
    assert_eq!(h.width, 640);
    assert_eq!(h.height, 480);
    assert_eq!(h.payload_len, 161);
}

#[test]
fn header_layout_is_exact() {
    let bytes = sample().to_bytes();
    let mut expected = vec![0x50u8, 0x32, 0x57, 0x56, 1];
    expected.extend(1u8..=12);
    expected.extend(0xa0u8..0xb0);
    expected.extend(0x10u8..0x20);
    expected.extend([0x01, 0x02, 0x03, 0x04]);
    expected.extend([0x0a, 0x0b, 0x0c, 0x0d]);
    expected.extend([0x11, 0x22, 0x33, 0x44, 0x55, 0x66, 0x77, 0x88]);
    assert_eq!(expected.len(), 65);
    assert_eq!(bytes.to_vec(), expected);
}

#[test]
fn header_magic_is_p2wv() {
    let bytes = sample().to_bytes();
    assert_eq!(&bytes[..4], b"P2WV");
}

#[test]
fn header_round_trip() {
    let h = sample();
    assert_eq!(Header::from_bytes(&h.to_bytes()), Ok(h));
}

#[test]
fn header_round_trip_extreme_values() {
    for (w, hh, len) in [
        (0u32, 0u32, 0u64),
        (u32::MAX, u32::MAX, u64::MAX),
        (1, 0x8000_0000, 65),
        (0x00ff_00ff, 0xff00_ff00, 0x0100_0000_0000_0001),
    ] {
        let h = Header::new(255, [0xff; 12], [0; 16], [0x55; 16], w, hh, len);
        assert_eq!(Header::from_bytes(&h.to_bytes()), Ok(h));
    }
}

#[test]
fn header_bytes_round_trip() {
    let mut buf = [0u8; 65];
    for (i, b) in buf.iter_mut().enumerate() {
        *b = (i as u8).wrapping_mul(37).wrapping_add(11);
    }
    buf[..4].copy_from_slice(b"P2WV");
    let h = Header::from_bytes(&buf).unwrap();
    assert_eq!(h.to_bytes(), buf);
}

#[test]
fn header_big_endian_fields() {
    let mut buf = [0u8; 65];
    buf[..4].copy_from_slice(b"P2WV");
    buf[52] = 4;
    buf[56] = 11;
    buf[64] = 161;
    let h = Header::from_bytes(&buf).unwrap();
    assert_eq!(h.width, 4);
    assert_eq!(h.height, 11);
    assert_eq!(h.payload_len, 161);
    buf[49] = 1;
    buf[57] = 1;
    let h = Header::from_bytes(&buf).unwrap();
    assert_eq!(h.width, 0x0100_0004);
    assert_eq!(h.payload_len, 0x0100_0000_0000_00a1);
}

#[test]
fn header_ignores_what_follows() {
    let h = sample();
    let mut buf = h.to_bytes().to_vec();
    buf.extend([9u8; 100]);
    assert_eq!(Header::from_bytes(&buf), Ok(h));
}

#[test]
fn header_corrupted_magic_is_refused() {
    let good = sample().to_bytes();
    for i in 0..4 {
        let mut buf = good;
        buf[i] ^= 0x01;
        let err = Header::from_bytes(&buf).unwrap_err();
        assert_eq!(err, PipelineError::BadMagic);
        assert_eq!(err.kind(), ErrorKind::Format);
    }
    let mut zeros = [0u8; 200];
    zeros[0] = b'p';
    assert_eq!(Header::from_bytes(&zeros), Err(PipelineError::BadMagic));
}

#[test]
fn header_truncated_is_refused() {
    let good = sample().to_bytes();
    let err = Header::from_bytes(&good[..64]).unwrap_err();
    assert_eq!(err, PipelineError::TruncatedHeader);
    assert_eq!(err.kind(), ErrorKind::Format);
    assert_eq!(Header::from_bytes(&[]), Err(PipelineError::TruncatedHeader));
    assert_eq!(Header::from_bytes(b"P2WV"), Err(PipelineError::TruncatedHeader));
}

#[test]
fn header_accepts_any_version() {
    let h = Header::new(0, [0; 12], [0; 16], [0; 16], 1, 1, 65);
    assert_eq!(Header::from_bytes(&h.to_bytes()).unwrap().version, 0);
}

#[test]
fn error_kinds() {
    assert_eq!(PipelineError::MissingCredentials.kind(), ErrorKind::Config);
    assert_eq!(PipelineError::ConflictingCredentials.kind(), ErrorKind::Config);
    assert_eq!(PipelineError::TooManyParts.kind(), ErrorKind::Config);
    assert_eq!(PipelineError::NoShares.kind(), ErrorKind::Config);
    assert_eq!(PipelineError::EmptyInput.kind(), ErrorKind::Config);
    assert_eq!(PipelineError::InvalidFilename.kind(), ErrorKind::Config);
    assert_eq!(PipelineError::TruncatedHeader.kind(), ErrorKind::Format);
    assert_eq!(PipelineError::BadMagic.kind(), ErrorKind::Format);
    assert_eq!(PipelineError::InvalidPayloadLength.kind(), ErrorKind::Format);
    assert_eq!(PipelineError::TruncatedPayload.kind(), ErrorKind::Format);
    assert_eq!(PipelineError::DimensionMismatch.kind(), ErrorKind::Format);
    assert_eq!(PipelineError::ZeroWidth.kind(), ErrorKind::Format);
    assert_eq!(PipelineError::ImageTooLarge.kind(), ErrorKind::Format);
    assert_eq!(
        PipelineError::AuthenticationFailed.kind(),
        ErrorKind::AuthenticationFailed
    );
    assert_eq!(PipelineError::SelfCheckFailed.kind(), ErrorKind::SelfCheckFailed);
    assert_eq!(PipelineError::NoPartsFound.kind(), ErrorKind::Reconstruction);
    assert_eq!(PipelineError::PartTooSmall.kind(), ErrorKind::Reconstruction);
    assert_eq!(
        PipelineError::ReconstructionLengthMismatch.kind(),
        ErrorKind::Reconstruction
    );
    assert_eq!(PipelineError::InvalidPartSequence.kind(), ErrorKind::Reconstruction);
    assert_eq!(
        PipelineError::InconsistentDimensions.kind(),
        ErrorKind::Reconstruction
    );
    assert_eq!(PipelineError::KeyDerivationFailed.kind(), ErrorKind::Crypto);
    assert_eq!(PipelineError::EncryptionFailed.kind(), ErrorKind::Crypto);
}
