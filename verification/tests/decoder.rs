use png::crc::Crc32;
use png::{ColorType, Decoded, Decoder, DecodingError, ReadError, Unsupported};

const SIGNATURE: [u8; 8] = [137, 80, 78, 71, 13, 10, 26, 10];

fn crc(kind: &[u8; 4], data: &[u8]) -> u32 {
    let mut crc = Crc32::new();
    crc.update(kind);
    crc.update(data);
    crc.checksum()
}

fn chunk(kind: &[u8; 4], data: &[u8]) -> Vec<u8> {
    let mut bytes = (data.len() as u32).to_be_bytes().to_vec();
    bytes.extend_from_slice(kind);
    bytes.extend_from_slice(data);
    bytes.extend_from_slice(&crc(kind, data).to_be_bytes());
    bytes
}

fn header(width: u32, height: u32, rest: &[u8]) -> Vec<u8> {
    let mut data = width.to_be_bytes().to_vec();
    data.extend_from_slice(&height.to_be_bytes());
    data.extend_from_slice(rest);
    chunk(b"IHDR", &data)
}

fn file(chunks: &[Vec<u8>]) -> Vec<u8> {
    let mut bytes = SIGNATURE.to_vec();
    for chunk in chunks {
        bytes.extend_from_slice(chunk);
    }
    bytes
}

fn pack(data: &[u8]) -> Vec<u8> {
    miniz_oxide::deflate::compress_to_vec_zlib(data, 6)
}

/// What is reported, image data apart, and the image data; in pieces of `size` bytes.
fn decode(bytes: &[u8], size: usize) -> Result<(Vec<String>, Vec<u8>), DecodingError> {
    let mut decoder = Decoder::new();
    let mut events = Vec::new();
    let mut image = Vec::new();
    for piece in bytes.chunks(size) {
        let mut rest = piece;
        loop {
            let (taken, decoded) = decoder.update(rest)?;
            match decoded {
                Decoded::Nothing => {
                    assert_eq!(taken, rest.len());
                    break;
                }
                Decoded::ImageData(data) => image.extend_from_slice(data),
                other => events.push(format!("{:?}", other)),
            }
            rest = &rest[taken..];
        }
    }
    Ok((events, image))
}

fn failure(bytes: &[u8]) -> DecodingError {
    decode(bytes, bytes.len()).unwrap_err()
}

fn small_image() -> (Vec<u8>, Vec<u8>) {
    let image: Vec<u8> = vec![0, 1, 2, 3, 4, 5, 6, 0, 7, 8, 9, 10, 11, 12];
    let packed = pack(&image);
    let bytes = file(&[
        header(2, 2, &[8, 2, 0, 0, 0]),
        chunk(b"tEXt", b"Title\0small"),
        chunk(b"IDAT", &packed[..5]),
        chunk(b"IDAT", &packed[5..]),
        chunk(b"IEND", &[]),
    ]);
    (bytes, image)
}

#[test]
fn events_of_a_small_image() {
    let (bytes, image) = small_image();
    let (events, found) = decode(&bytes, bytes.len()).unwrap();
    assert_eq!(found, image);
    let packed = pack(&image);
    let expected = vec![
        format!("ChunkBegin(13, {:?})", b"IHDR"),
        "Header(2, 2, 8, RGB, false)".to_string(),
        format!(
            "ChunkComplete({}, {:?})",
            crc(b"IHDR", &[0, 0, 0, 2, 0, 0, 0, 2, 8, 2, 0, 0, 0]),
            b"IHDR"
        ),
        format!("ChunkBegin(11, {:?})", b"tEXt"),
        format!(
            "ChunkComplete({}, {:?})",
            crc(b"tEXt", b"Title\0small"),
            b"tEXt"
        ),
        format!("ChunkBegin(5, {:?})", b"IDAT"),
        format!("ChunkComplete({}, {:?})", crc(b"IDAT", &packed[..5]), b"IDAT"),
        format!("ChunkBegin({}, {:?})", packed.len() - 5, b"IDAT"),
        format!("ChunkComplete({}, {:?})", crc(b"IDAT", &packed[5..]), b"IDAT"),
        format!("ChunkBegin(0, {:?})", b"IEND"),
        "ImageEnd".to_string(),
    ];
    assert_eq!(events, expected);
}

#[test]
fn pieces_of_any_size_decode_alike() {
    let (bytes, _) = small_image();
    let whole = decode(&bytes, bytes.len()).unwrap();
    for size in [1, 2, 3, 7, 16, 50] {
        assert_eq!(decode(&bytes, size).unwrap(), whole);
    }
}

#[test]
fn bytes_taken_by_an_update() {
    let (bytes, _) = small_image();
    let mut decoder = Decoder::new();
    match decoder.update(&bytes).unwrap() {
        (16, Decoded::ChunkBegin(13, kind)) => assert_eq!(&kind, b"IHDR"),
        other => panic!("{:?}", other),
    }
    match decoder.update(&bytes[16..]).unwrap() {
        (13, Decoded::Header(2, 2, 8, ColorType::RGB, false)) => {}
        other => panic!("{:?}", other),
    }
    match decoder.update(&bytes[29..]).unwrap() {
        (4, Decoded::ChunkComplete(_, kind)) => assert_eq!(&kind, b"IHDR"),
        other => panic!("{:?}", other),
    }
    match decoder.update(&bytes[33..40]).unwrap() {
        (7, Decoded::Nothing) => {}
        other => panic!("{:?}", other),
    }
    match decoder.update(&[]).unwrap() {
        (0, Decoded::Nothing) => {}
        other => panic!("{:?}", other),
    }
}

#[test]
fn a_wrong_signature() {
    for position in 0..8 {
        let mut bytes = file(&[]);
        bytes[position] ^= 1;
        let mut decoder = Decoder::new();
        assert!(matches!(
            decoder.update(&bytes),
            Err(DecodingError::InvalidSignature)
        ));
        assert!(decoder.has_failed());
        assert!(matches!(
            decoder.update(&bytes),
            Ok((0, Decoded::Nothing))
        ));
    }
}

#[test]
fn a_reset_decoder_starts_over() {
    let (bytes, _) = small_image();
    let mut decoder = Decoder::new();
    for stop in [3, 20, 60, 90] {
        let mut rest = &bytes[..stop];
        while !rest.is_empty() {
            let (taken, _) = decoder.update(rest).unwrap();
            rest = &rest[taken..];
        }
        decoder.reset();
        assert!(decoder.info().is_none());
    }
    assert!(decoder.update(&[1, 2, 3, 4, 5, 6, 7, 8]).is_err());
    decoder.reset();
    assert!(!decoder.has_failed());
    assert!(matches!(
        decoder.update(&bytes),
        Ok((16, Decoded::ChunkBegin(13, _)))
    ));
}

#[test]
fn headers_that_say_something_wrong() {
    let cases: [(&[u8], &str); 8] = [
        (&[3, 2, 0, 0, 0], "invalid bit depth (3)"),
        (&[0, 2, 0, 0, 0], "invalid bit depth (0)"),
        (&[8, 1, 0, 0, 0], "invalid color type (1)"),
        (&[8, 2, 17, 0, 0], "unknown compression method (17)"),
        (&[8, 2, 0, 200, 0], "unknown filter method (200)"),
        (&[8, 2, 0, 0, 2], "unknown interlace method (2)"),
        (&[8, 2, 0, 0, 109], "unknown interlace method (109)"),
        (&[255, 9], "invalid bit depth (255)"),
    ];
    for (rest, text) in cases {
        let mut bytes = file(&[header(1, 1, rest)]);
        bytes.push(0);
        match failure(&bytes) {
            DecodingError::Format(found) => assert_eq!(found, text),
            other => panic!("{:?}", other),
        }
    }
}

#[test]
fn a_decoder_rests_after_a_chunk_that_failed() {
    let bytes = file(&[header(1, 1, &[3, 2, 0, 0, 0]), chunk(b"IEND", &[])]);
    let mut decoder = Decoder::new();
    assert!(matches!(
        decoder.update(&bytes),
        Ok((16, Decoded::ChunkBegin(13, _)))
    ));
    assert!(decoder.update(&bytes[16..]).is_err());
    for rest in [&bytes[29..], &bytes[..], &[]] {
        assert!(matches!(decoder.update(rest), Ok((0, Decoded::Nothing))));
    }
    decoder.reset();
    assert!(matches!(
        decoder.update(&bytes),
        Ok((16, Decoded::ChunkBegin(13, _)))
    ));
}

#[test]
fn an_empty_header_chunk_is_not_made_use_of() {
    let bytes = file(&[chunk(b"IHDR", &[]), chunk(b"IEND", &[])]);
    let (events, _) = decode(&bytes, bytes.len()).unwrap();
    assert_eq!(events.len(), 4);
    assert_eq!(
        events[1],
        format!("ChunkComplete({}, {:?})", crc(b"IHDR", &[]), b"IHDR")
    );
}

#[test]
fn headers_that_are_too_short() {
    for rest in [&[][..], &[8], &[8, 2], &[8, 2, 0], &[8, 2, 0, 0]] {
        let error = failure(&file(&[header(1, 1, rest)]));
        assert!(matches!(
            error,
            DecodingError::IoError(ReadError::UnexpectedEof)
        ));
        assert_eq!(error.description(), "unexpected end of file");
    }
}

#[test]
fn a_header_comes_back() {
    for depth in [1, 2, 4, 8, 16] {
        for (code, color_type) in [
            (0, ColorType::Grayscale),
            (2, ColorType::RGB),
            (3, ColorType::Indexed),
            (4, ColorType::GrayscaleAlpha),
            (6, ColorType::RGBA),
        ] {
            for interlace in [0, 1] {
                let mut bytes = file(&[header(70_000, 0x01020304, &[depth, code, 0, 0, interlace])]);
                bytes.extend_from_slice(&chunk(b"IEND", &[]));
                let mut decoder = Decoder::new();
                decoder.update(&bytes).unwrap();
                decoder.update(&bytes[16..]).unwrap();
                let info = decoder.info().unwrap();
                assert_eq!(info.width, 70_000);
                assert_eq!(info.height, 0x01020304);
                assert_eq!(info.bit_depth, depth);
                assert_eq!(info.color_type, color_type);
                assert_eq!(info.interlaced, interlace == 1);
                assert!(info.trns.is_none());
                assert!(info.palette.is_none());
            }
        }
    }
}

#[test]
fn a_wrong_check() {
    let (mut bytes, _) = small_image();
    // The last byte of the check of the header.
    bytes[32] ^= 0x40;
    let right = crc(b"IHDR", &[0, 0, 0, 2, 0, 0, 0, 2, 8, 2, 0, 0, 0]);
    let error = failure(&bytes);
    assert_eq!(error.description(), "CRC error");
    match error {
        DecodingError::CrcMismatch {
            recover,
            crc_val,
            crc_sum,
            chunk,
        } => {
            assert_eq!(recover, 1);
            assert_eq!(crc_val, right ^ 0x40);
            assert_eq!(crc_sum, right);
            assert_eq!(&chunk, b"IHDR");
        }
        other => panic!("{:?}", other),
    }
}

#[test]
fn a_long_unknown_chunk_is_skipped() {
    for length in [0, 1, 10_239, 10_240, 10_241, 20_480, 25_000] {
        let data: Vec<u8> = (0..length).map(|i| (i % 256) as u8).collect();
        let bytes = file(&[chunk(b"zzZz", &data), chunk(b"IEND", &[])]);
        for size in [bytes.len(), 997] {
            let (events, image) = decode(&bytes, size).unwrap();
            assert!(image.is_empty());
            assert_eq!(
                events,
                vec![
                    format!("ChunkBegin({}, {:?})", length, b"zzZz"),
                    format!("ChunkComplete({}, {:?})", crc(b"zzZz", &data), b"zzZz"),
                    format!("ChunkBegin(0, {:?})", b"IEND"),
                    "ImageEnd".to_string(),
                ]
            );
        }
    }
}

#[test]
fn palette_and_transparency_are_kept() {
    let bytes = file(&[
        header(1, 1, &[8, 3, 0, 0, 0]),
        chunk(b"PLTE", &[1, 2, 3, 4, 5, 6]),
        chunk(b"tRNS", &[9, 8]),
        chunk(b"IEND", &[]),
    ]);
    let mut decoder = Decoder::new();
    let mut rest = &bytes[..];
    while !rest.is_empty() {
        let (taken, _) = decoder.update(rest).unwrap();
        rest = &rest[taken..];
    }
    let info = decoder.info().unwrap();
    assert_eq!(info.palette, Some(vec![1, 2, 3, 4, 5, 6]));
    assert_eq!(info.trns, Some(vec![9, 8]));
}

#[test]
fn a_palette_without_a_header_is_passed_over() {
    let bytes = file(&[chunk(b"PLTE", &[1, 2, 3]), chunk(b"IEND", &[])]);
    let (events, _) = decode(&bytes, bytes.len()).unwrap();
    assert_eq!(events.len(), 4);
    assert_eq!(events[3], "ImageEnd");
}

#[test]
fn transparency_in_the_wrong_place() {
    let cases = [
        (3, "tRNS chunk occured before PLTE chunk"),
        (4, "tRNS chunk found for color type (4)"),
        (6, "tRNS chunk found for color type (6)"),
    ];
    for (code, text) in cases {
        let bytes = file(&[
            header(1, 1, &[8, code, 0, 0, 0]),
            chunk(b"tRNS", &[9, 8]),
            chunk(b"IEND", &[]),
        ]);
        match failure(&bytes) {
            DecodingError::Format(found) => assert_eq!(found, text),
            other => panic!("{:?}", other),
        }
    }
    match failure(&file(&[chunk(b"tRNS", &[9])])) {
        DecodingError::Format(found) => assert_eq!(found, "IHDR chunk missing"),
        other => panic!("{:?}", other),
    }
}

#[test]
fn transparent_colors_are_not_supported() {
    for (code, color_type) in [(0, ColorType::Grayscale), (2, ColorType::RGB)] {
        let bytes = file(&[header(1, 1, &[8, code, 0, 0, 0]), chunk(b"tRNS", &[0, 1])]);
        let error = failure(&bytes);
        assert_eq!(error.description(), "not implemented");
        match error {
            DecodingError::Unsupported(what) => {
                assert_eq!(what, Unsupported::Transparency(color_type))
            }
            other => panic!("{:?}", other),
        }
    }
}

#[test]
fn image_data_without_a_header() {
    match failure(&file(&[chunk(b"IDAT", &pack(&[0, 1]))])) {
        DecodingError::Format(text) => assert_eq!(text, "IHDR chunk missing"),
        other => panic!("{:?}", other),
    }
}

#[test]
fn corrupt_image_data() {
    let garbage = file(&[header(4, 4, &[8, 0, 0, 0, 0]), chunk(b"IDAT", &[0xFF; 30])]);
    let error = failure(&garbage);
    assert!(matches!(error, DecodingError::CorruptFlateStream));
    assert_eq!(error.description(), "compressed data stream corrupted");

    let mut packed = pack(&[0, 1, 2, 3, 4]);
    packed.push(0);
    let trailing = file(&[
        header(4, 1, &[8, 0, 0, 0, 0]),
        chunk(b"IDAT", &packed),
        chunk(b"IEND", &[]),
    ]);
    assert!(matches!(
        failure(&trailing),
        DecodingError::CorruptFlateStream
    ));
}

#[test]
fn image_data_never_spans_rows() {
    // Rows that are longer than the image buffer, and rows that are shorter; chunks that are longer
    // than what is held of a chunk, and chunks that are shorter.
    for (width, height) in [(40_000u32, 3u32), (10, 50), (30_719, 2), (30_720, 2)] {
        let row = width as usize + 1;
        let mut noise = 1u32;
        let image: Vec<u8> = (0..row * height as usize)
            .map(|_| {
                noise = noise.wrapping_mul(1_664_525).wrapping_add(1_013_904_223);
                (noise >> 24) as u8
            })
            .collect();
        let packed = pack(&image);
        for size in [4_000, 10_240, 1_000_000] {
            let mut chunks = vec![header(width, height, &[8, 0, 0, 0, 0])];
            for part in packed.chunks(size) {
                chunks.push(chunk(b"IDAT", part));
            }
            chunks.push(chunk(b"IEND", &[]));
            let bytes = file(&chunks);
            let mut decoder = Decoder::new();
            let mut rest = &bytes[..];
            let mut found: Vec<u8> = Vec::new();
            while !rest.is_empty() {
                let (taken, decoded) = decoder.update(rest).unwrap();
                if let Decoded::ImageData(data) = decoded {
                    assert!(found.len() % row + data.len() <= row);
                    assert!(data.len() <= 30_720);
                    found.extend_from_slice(data);
                }
                rest = &rest[taken..];
            }
            assert_eq!(found, image);
        }
    }
}

#[test]
fn descriptions() {
    assert_eq!(
        DecodingError::InvalidSignature.description(),
        "invalid signature"
    );
    assert_eq!(
        DecodingError::Format("some text".to_string()).description(),
        "some text"
    );
    assert_eq!(
        DecodingError::from(ReadError::UnexpectedEof).description(),
        "unexpected end of file"
    );
}
