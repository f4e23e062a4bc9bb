use p2wviewer::chunks::ceil_div_u64;
use p2wviewer::crypto::{
    derive_key_from_file, derive_key_from_password, encrypt, generate_token,
};
use p2wviewer::decrypt::{
    bytes_equal, check_plaintext, image_bytes, open_payload, order_parts, part_number,
    select_parts, DecryptOptions,
};
use p2wviewer::encrypt::{pack, seal, EncryptOptions};
use p2wviewer::error::{ErrorKind, PipelineError};
use p2wviewer::header::Header;
use p2wviewer::image_ops::{bti, has_pixel_count, itb, RasterImage};

fn picture(width: u32, height: u32) -> RasterImage {
    let len = (width * height * 4) as usize;
    let data = (0..len).map(|i| (i * 31 % 256) as u8).collect();
    RasterImage { width, height, data }
}

fn parts_of(images: &[RasterImage]) -> Vec<Vec<u8>> {
    images.iter().map(|img| img.data.clone()).collect()
}

fn with_password(image: RasterImage, password: &str, split: u32) -> EncryptOptions {
    EncryptOptions {
        image,
        password: Some(password.to_string()),
        password_file: None,
        split: Some(split),
    }
}

fn open_with_password(images: &[RasterImage], password: &str) -> Result<RasterImage, PipelineError> {
    p2wviewer::decrypt::run(DecryptOptions {
        parts: parts_of(images),
        password: Some(password.to_string()),
        password_file: None,
    })
}

#[test]
fn ceil_div_exact_values() {
    assert_eq!(ceil_div_u64(0, 5), 0);
    assert_eq!(ceil_div_u64(1, 5), 1);
    assert_eq!(ceil_div_u64(5, 5), 1);
    assert_eq!(ceil_div_u64(6, 5), 2);
    assert_eq!(ceil_div_u64(161, 4), 41);
    assert_eq!(ceil_div_u64(41, 4), 11);
    assert_eq!(ceil_div_u64(u64::MAX, 1), u64::MAX);
    assert_eq!(ceil_div_u64(u64::MAX, 2), 1 << 63);
    assert_eq!(ceil_div_u64(u64::MAX, u64::MAX), 1);
}

#[test]
fn pixel_count_check() {
    assert!(has_pixel_count(64, 4, 4));
    assert!(!has_pixel_count(63, 4, 4));
    assert!(has_pixel_count(0, 0, 7));
    assert!(has_pixel_count(0, 7, 0));
    assert!(!has_pixel_count(0, u32::MAX, u32::MAX));
    assert!(!has_pixel_count(4, 0x8000_0000, 0x8000_0000));
}

#[test]
fn bytes_to_image_and_back() {
    let data: Vec<u8> = (0..24).collect();
    let img = bti(&data, 3, 2).unwrap();
    assert_eq!(img.width, 3);
    assert_eq!(img.height, 2);
    assert_eq!(img.data, data);
    assert_eq!(itb(&img), data);
    assert!(img.is_wf());
}

#[test]
fn bytes_to_image_checks_the_size() {
    let data = vec![0u8; 23];
    assert_eq!(bti(&data, 3, 2), Err(PipelineError::DimensionMismatch));
    assert_eq!(bti(&data[..20], 3, 2), Err(PipelineError::DimensionMismatch));
    assert_eq!(bti(&[], 0, 0).unwrap().data, Vec::<u8>::new());
    let bad = RasterImage { width: 2, height: 2, data: vec![0; 15] };
    assert!(!bad.is_wf());
}

#[test]
fn example_four_by_four() {
    let image = RasterImage { width: 4, height: 4, data: vec![0u8; 64] };
    let images = p2wviewer::encrypt::run(with_password(image.clone(), "test", 1)).unwrap();
    assert_eq!(images.len(), 1);
    assert_eq!(images[0].width, 4);
    assert_eq!(images[0].height, 11);
    assert_eq!(images[0].data.len(), 4 * 11 * 4);
    let header = Header::from_bytes(&images[0].data).unwrap();
    assert_eq!(header.payload_len, 161);
    assert_eq!(header.version, 1);
    assert_eq!(header.width, 4);
    assert_eq!(header.height, 4);
    assert!(images[0].data[161..].iter().all(|&b| b == 0));
    let back = open_with_password(&images, "test").unwrap();
    assert_eq!(back, image);
    assert_eq!(back.data, vec![0u8; 64]);
    let err = open_with_password(&images, "wrong").unwrap_err();
    assert!(
        err == PipelineError::AuthenticationFailed || err == PipelineError::SelfCheckFailed
    );
}

#[test]
fn round_trip_with_password_for_split_counts() {
    let image = picture(16, 16);
    for split in [1u32, 2, 7] {
        let images = p2wviewer::encrypt::run(with_password(image.clone(), "pässword", split)).unwrap();
        assert_eq!(images.len(), split as usize);
        assert!(images.iter().all(|img| img.width == 16 && img.is_wf()));
        assert_eq!(open_with_password(&images, "pässword"), Ok(image.clone()));
    }
}

#[test]
fn round_trip_with_key_file_for_split_counts() {
    let image = picture(5, 9);
    let key_file: Vec<u8> = (0..300u32).map(|i| (i % 255) as u8).collect();
    for split in [0u32, 1, 2, 3, 4] {
        let images = p2wviewer::encrypt::run(EncryptOptions {
            image: image.clone(),
            password: None,
            password_file: Some(key_file.clone()),
            split: Some(split),
        })
        .unwrap();
        let header = Header::from_bytes(&images[0].data).unwrap();
        assert_eq!(header.salt, [0u8; 16]);
        assert_eq!(header.payload_len, 65 + 32 + 5 * 9 * 4);
        let back = p2wviewer::decrypt::run(DecryptOptions {
            parts: parts_of(&images),
            password: None,
            password_file: Some(key_file.clone()),
        });
        assert_eq!(back, Ok(image.clone()));
    }
}

#[test]
fn split_defaults_to_one_image() {
    let image = picture(3, 3);
    let images = p2wviewer::encrypt::run(EncryptOptions {
        image,
        password: None,
        password_file: Some(vec![1, 2, 3]),
        split: None,
    })
    .unwrap();
    assert_eq!(images.len(), 1);
}

#[test]
fn wrong_password_is_refused() {
    let image = picture(8, 8);
    for split in [1u32, 3] {
        let images = p2wviewer::encrypt::run(with_password(image.clone(), "right", split)).unwrap();
        for wrong in ["wrong", "Right", "right ", ""] {
            let err = open_with_password(&images, wrong).unwrap_err();
            assert!(
                err == PipelineError::AuthenticationFailed
                    || err == PipelineError::SelfCheckFailed
            );
        }
    }
}

#[test]
fn wrong_key_file_is_refused() {
    let image = picture(8, 8);
    let images = p2wviewer::encrypt::run(EncryptOptions {
        image,
        password: None,
        password_file: Some(b"key material".to_vec()),
        split: Some(1),
    })
    .unwrap();
    let err = p2wviewer::decrypt::run(DecryptOptions {
        parts: parts_of(&images),
        password: None,
        password_file: Some(b"key materiam".to_vec()),
    })
    .unwrap_err();
    assert_eq!(err, PipelineError::AuthenticationFailed);
    assert_eq!(err.kind(), ErrorKind::AuthenticationFailed);
}

#[test]
fn corrupted_ciphertext_is_refused() {
    let image = picture(8, 8);
    let images = p2wviewer::encrypt::run(with_password(image, "pw", 1)).unwrap();
    let mut parts = parts_of(&images);
    parts[0][100] ^= 0x40;
    let back = p2wviewer::decrypt::run(DecryptOptions {
        parts,
        password: Some("pw".to_string()),
        password_file: None,
    });
    assert_eq!(back, Err(PipelineError::AuthenticationFailed));
}

#[test]
fn encrypt_needs_exactly_one_credential() {
    let none = p2wviewer::encrypt::run(EncryptOptions {
        image: picture(2, 2),
        password: None,
        password_file: None,
        split: Some(1),
    });
    assert_eq!(none, Err(PipelineError::MissingCredentials));
    let both = p2wviewer::encrypt::run(EncryptOptions {
        image: picture(2, 2),
        password: Some("pw".to_string()),
        password_file: Some(vec![1]),
        split: Some(1),
    });
    assert_eq!(both, Err(PipelineError::ConflictingCredentials));
    assert_eq!(PipelineError::MissingCredentials.kind(), ErrorKind::Config);
}

#[test]
fn decrypt_needs_exactly_one_credential() {
    let images = seal(&picture(2, 2), &[1; 32], &[0; 16], &[2; 12], 1).unwrap();
    let none = p2wviewer::decrypt::run(DecryptOptions {
        parts: parts_of(&images),
        password: None,
        password_file: None,
    });
    assert_eq!(none, Err(PipelineError::MissingCredentials));
    let both = p2wviewer::decrypt::run(DecryptOptions {
        parts: parts_of(&images),
        password: Some("pw".to_string()),
        password_file: Some(vec![1]),
    });
    assert_eq!(both, Err(PipelineError::ConflictingCredentials));
}

#[test]
fn encrypt_refuses_a_picture_with_the_wrong_byte_count() {
    let bad = RasterImage { width: 2, height: 2, data: vec![0; 17] };
    let r = p2wviewer::encrypt::run(with_password(bad, "pw", 1));
    assert_eq!(r, Err(PipelineError::DimensionMismatch));
}

#[test]
fn seal_is_deterministic_and_exact() {
    let image = picture(4, 3);
    let key = [9u8; 32];
    let salt = [7u8; 16];
    let nonce = [5u8; 12];
    let a = seal(&image, &key, &salt, &nonce, 1).unwrap();
    let b = seal(&image, &key, &salt, &nonce, 1).unwrap();
    assert_eq!(a, b);
    let mut payload = generate_token(&key).to_vec();
    payload.extend_from_slice(&image.data);
    let (ciphertext, tag) = encrypt(&key, &nonce, &payload).unwrap();
    let header = Header::new(1, nonce, tag, salt, 4, 3, 65 + 32 + 48);
    let mut stream = header.to_bytes().to_vec();
    stream.extend_from_slice(&ciphertext);
    assert_eq!(stream.len(), 145);
    assert_eq!(a[0].height, 10);
    assert_eq!(&a[0].data[..145], &stream[..]);
    assert_eq!(&a[0].data[145..], &[0u8; 15][..]);
    assert_eq!(open_payload(&stream, &key), Ok(image));
}

#[test]
fn pack_single_image_pads_to_whole_rows() {
    let stream: Vec<u8> = (1..=10u8).collect();
    let images = pack(&stream, 2, 1).unwrap();
    assert_eq!(images.len(), 1);
    assert_eq!(images[0].width, 2);
    assert_eq!(images[0].height, 2);
    assert_eq!(images[0].data, vec![1, 2, 3, 4, 5, 6, 7, 8, 9, 10, 0, 0, 0, 0, 0, 0]);
    let images = pack(&stream[..8], 2, 0).unwrap();
    assert_eq!(images[0].height, 1);
    assert_eq!(images[0].data, vec![1, 2, 3, 4, 5, 6, 7, 8]);
}

#[test]
fn pack_chunks_are_exact() {
    let stream: Vec<u8> = (0..1121u32).map(|i| (i % 251) as u8 + 1).collect();
    let images = pack(&stream, 16, 7).unwrap();
    assert_eq!(images.len(), 7);
    let mut total = 0usize;
    for (i, img) in images.iter().enumerate() {
        let size = if i < 6 { 161 } else { 155 };
        assert_eq!(img.width, 16);
        assert_eq!(img.height, 3);
        assert_eq!(img.data.len(), 192);
        assert_eq!(&img.data[..size], &stream[i * 161..i * 161 + size]);
        assert!(img.data[size..].iter().all(|&b| b == 0));
        total += size;
    }
    assert_eq!(total, 1121);
}

#[test]
fn pack_leaves_out_empty_chunks() {
    let stream: Vec<u8> = (1..=100u8).collect();
    let images = pack(&stream, 1, 51).unwrap();
    assert_eq!(images.len(), 50);
    assert!(images.iter().all(|img| img.height == 1 && img.data.len() == 4));
    assert_eq!(&images[49].data[..2], &[99, 100]);
}

#[test]
fn pack_refuses_more_parts_than_bytes() {
    let stream = vec![1u8; 10];
    assert_eq!(pack(&stream, 2, 11), Err(PipelineError::TooManyParts));
    assert_eq!(pack(&stream, 2, 10).unwrap().len(), 10);
    assert_eq!(PipelineError::TooManyParts.kind(), ErrorKind::Config);
}

#[test]
fn pack_refuses_zero_width() {
    assert_eq!(pack(&[1, 2, 3], 0, 1), Err(PipelineError::ZeroWidth));
    let empty = RasterImage { width: 0, height: 5, data: vec![] };
    assert_eq!(
        seal(&empty, &[0; 32], &[0; 16], &[0; 12], 1),
        Err(PipelineError::ZeroWidth)
    );
}

#[test]
fn pack_of_nothing_is_an_image_without_rows() {
    let images = pack(&[], 3, 1).unwrap();
    assert_eq!(images.len(), 1);
    assert_eq!(images[0].height, 0);
    assert!(images[0].data.is_empty());
}

#[test]
fn small_chunks_cannot_be_opened_again() {
    let image = RasterImage { width: 1, height: 1, data: vec![1, 2, 3, 255] };
    let images = seal(&image, &[3; 32], &[0; 16], &[4; 12], 2).unwrap();
    assert_eq!(images.len(), 2);
    assert_eq!(images[0].data.len(), 52);
    assert_eq!(image_bytes(&parts_of(&images)), Err(PipelineError::TruncatedHeader));
}

#[test]
fn image_bytes_of_one_part_drops_the_padding() {
    let header = Header::new(1, [0; 12], [0; 16], [0; 16], 2, 2, 70);
    let mut part = header.to_bytes().to_vec();
    part.extend([1, 2, 3, 4, 5, 0, 0, 0]);
    let stream = image_bytes(&vec![part.clone()]).unwrap();
    assert_eq!(stream.len(), 70);
    assert_eq!(&stream[..], &part[..70]);
}

#[test]
fn image_bytes_joins_chunks_by_the_number_of_parts() {
    let header = Header::new(1, [0; 12], [0; 16], [0; 16], 2, 2, 200);
    let mut stream = header.to_bytes().to_vec();
    stream.extend((0..135u8).map(|i| i + 1));
    let mut parts = Vec::new();
    for chunk in stream.chunks(67) {
        let mut part = chunk.to_vec();
        part.extend([0xee; 5]);
        parts.push(part);
    }
    assert_eq!(parts.len(), 3);
    assert_eq!(image_bytes(&parts), Ok(stream));
}

#[test]
fn image_bytes_without_parts() {
    let err = image_bytes(&Vec::new()).unwrap_err();
    assert_eq!(err, PipelineError::NoPartsFound);
    assert_eq!(err.kind(), ErrorKind::Reconstruction);
}

#[test]
fn image_bytes_header_errors() {
    assert_eq!(image_bytes(&vec![vec![0u8; 64]]), Err(PipelineError::TruncatedHeader));
    assert_eq!(image_bytes(&vec![vec![0u8; 65]]), Err(PipelineError::BadMagic));
    let short = Header::new(1, [0; 12], [0; 16], [0; 16], 1, 1, 64);
    assert_eq!(
        image_bytes(&vec![short.to_bytes().to_vec()]),
        Err(PipelineError::InvalidPayloadLength)
    );
}

#[test]
fn image_bytes_part_too_small() {
    let header = Header::new(1, [0; 12], [0; 16], [0; 16], 2, 2, 200);
    let first = header.to_bytes().to_vec();
    assert_eq!(image_bytes(&vec![first.clone()]), Err(PipelineError::PartTooSmall));
    let mut full = first.clone();
    full.extend([0u8; 35]);
    assert_eq!(
        image_bytes(&vec![full.clone(), vec![0u8; 99]]),
        Err(PipelineError::PartTooSmall)
    );
    assert_eq!(image_bytes(&vec![full.clone(), vec![0u8; 100]]).unwrap().len(), 200);
    assert_eq!(
        image_bytes(&vec![full.clone(), vec![0u8; 66], vec![0u8; 66]]),
        Err(PipelineError::PartTooSmall)
    );
    assert_eq!(
        image_bytes(&vec![full, vec![0u8; 67], vec![0u8; 66]]).unwrap().len(),
        200
    );
}

#[test]
fn image_bytes_length_mismatch() {
    let header = Header::new(1, [0; 12], [0; 16], [0; 16], 2, 2, 101);
    let mut parts = vec![header.to_bytes().to_vec()];
    for _ in 1..60 {
        parts.push(vec![7u8; 2]);
    }
    let err = image_bytes(&parts).unwrap_err();
    assert_eq!(err, PipelineError::ReconstructionLengthMismatch);
    assert_eq!(err.kind(), ErrorKind::Reconstruction);
}

#[test]
fn image_bytes_uses_the_parts_found() {
    let image = picture(16, 16);
    let images = seal(&image, &[1; 32], &[0; 16], &[2; 12], 7).unwrap();
    let mut parts = parts_of(&images);
    parts.pop();
    let joined = image_bytes(&parts);
    assert!(joined.is_err() || open_payload(&joined.unwrap(), &[1; 32]).is_err());
}

#[test]
fn check_plaintext_cases() {
    let token = [5u8; 32];
    let mut plaintext = token.to_vec();
    plaintext.extend([1, 2, 3, 4, 5, 6, 7, 8]);
    let img = check_plaintext(&plaintext, &token, 2, 1).unwrap();
    assert_eq!(img, RasterImage { width: 2, height: 1, data: vec![1, 2, 3, 4, 5, 6, 7, 8] });
    assert_eq!(
        check_plaintext(&plaintext, &token, 1, 1),
        Err(PipelineError::DimensionMismatch)
    );
    assert_eq!(
        check_plaintext(&plaintext, &[6u8; 32], 2, 1),
        Err(PipelineError::SelfCheckFailed)
    );
    assert_eq!(
        check_plaintext(&plaintext[..31], &token, 0, 0),
        Err(PipelineError::TruncatedPayload)
    );
    assert_eq!(
        check_plaintext(&plaintext[..32], &token, 0, 9).unwrap().data,
        Vec::<u8>::new()
    );
}

#[test]
fn open_payload_self_check() {
    let key = [8u8; 32];
    let nonce = [1u8; 12];
    let mut payload = vec![0u8; 32];
    payload.extend([9u8; 4]);
    let (ciphertext, tag) = encrypt(&key, &nonce, &payload).unwrap();
    let header = Header::new(1, nonce, tag, [0; 16], 1, 1, 65 + 36);
    let mut stream = header.to_bytes().to_vec();
    stream.extend_from_slice(&ciphertext);
    let err = open_payload(&stream, &key).unwrap_err();
    assert_eq!(err, PipelineError::SelfCheckFailed);
    assert_eq!(err.kind(), ErrorKind::SelfCheckFailed);
}

#[test]
fn open_payload_truncated_payload_and_size() {
    let key = [8u8; 32];
    let nonce = [1u8; 12];
    let (ciphertext, tag) = encrypt(&key, &nonce, &[1, 2, 3]).unwrap();
    let header = Header::new(1, nonce, tag, [0; 16], 1, 1, 68);
    let mut stream = header.to_bytes().to_vec();
    stream.extend_from_slice(&ciphertext);
    assert_eq!(open_payload(&stream, &key), Err(PipelineError::TruncatedPayload));
    let mut payload = generate_token(&key).to_vec();
    payload.extend([0u8; 8]);
    let (ciphertext, tag) = encrypt(&key, &nonce, &payload).unwrap();
    let header = Header::new(1, nonce, tag, [0; 16], 3, 1, 65 + 40);
    let mut stream = header.to_bytes().to_vec();
    stream.extend_from_slice(&ciphertext);
    assert_eq!(open_payload(&stream, &key), Err(PipelineError::DimensionMismatch));
    assert_eq!(open_payload(&stream[..10], &key), Err(PipelineError::TruncatedHeader));
}

#[test]
fn decrypt_uses_the_salt_of_the_header() {
    let image = picture(4, 4);
    let salt: [u8; 16] = core::array::from_fn(|i| 200 - i as u8);
    let (key, _) = derive_key_from_password("pw", Some(salt)).unwrap();
    let images = seal(&image, &key, &salt, &[3; 12], 1).unwrap();
    assert_eq!(open_with_password(&images, "pw"), Ok(image.clone()));
    let (file_key, zero_salt) = derive_key_from_file(b"pw");
    let images = seal(&image, &file_key, &zero_salt, &[3; 12], 1).unwrap();
    assert!(open_with_password(&images, "pw").is_err());
}

#[test]
fn bytes_equal_cases() {
    assert!(bytes_equal(&[], &[]));
    assert!(bytes_equal(&[1, 2, 3], &[1, 2, 3]));
    assert!(!bytes_equal(&[1, 2, 3], &[1, 2, 4]));
    assert!(!bytes_equal(&[1, 2, 3], &[1, 2]));
}

#[test]
fn part_numbers_in_names() {
    assert_eq!(part_number("name.2.png"), Some(2));
    assert_eq!(part_number("name.10.PNG"), Some(10));
    assert_eq!(part_number("a.b.007.png"), Some(7));
    assert_eq!(part_number(".1.png"), Some(1));
    assert_eq!(part_number("name.0.png"), Some(0));
    assert_eq!(part_number("name.4294967295.png"), Some(u32::MAX));
    assert_eq!(part_number("name.4294967296.png"), None);
    assert_eq!(part_number("name.png"), None);
    assert_eq!(part_number("name.2.jpg"), None);
    assert_eq!(part_number("name.2.Png"), None);
    assert_eq!(part_number("name.2.png.bak"), None);
    assert_eq!(part_number("name.x2.png"), None);
    assert_eq!(part_number("name.+2.png"), None);
    assert_eq!(part_number("name2.png"), None);
    assert_eq!(part_number(""), None);
}

#[test]
fn parts_are_ordered_by_number() {
    let names: Vec<String> = ["a.2.png", "b.txt", "a.1.png", "a.10.PNG", "x.3.jpg", "a.3.png"]
        .iter()
        .map(|s| s.to_string())
        .collect();
    assert_eq!(select_parts(&names), Ok(vec![2, 0, 5, 3]));
}

#[test]
fn parts_with_equal_numbers_keep_their_order() {
    let names: Vec<String> = ["b.1.png", "a.1.png", "c.0.png"].iter().map(|s| s.to_string()).collect();
    assert_eq!(select_parts(&names), Ok(vec![2, 0, 1]));
    assert_eq!(order_parts(&vec![Some(5), None, Some(5), Some(4)]), Ok(vec![3, 0, 2]));
}

#[test]
fn no_parts_found() {
    let names: Vec<String> = ["a.png", "b.txt", "c.1.jpg"].iter().map(|s| s.to_string()).collect();
    assert_eq!(select_parts(&names), Err(PipelineError::NoPartsFound));
    assert_eq!(select_parts(&Vec::new()), Err(PipelineError::NoPartsFound));
    assert_eq!(order_parts(&vec![None, None]), Err(PipelineError::NoPartsFound));
    let parts: Vec<Vec<u8>> = Vec::new();
    let r = p2wviewer::decrypt::run(DecryptOptions {
        parts,
        password: Some("pw".to_string()),
        password_file: None,
    });
    assert_eq!(r, Err(PipelineError::NoPartsFound));
}
