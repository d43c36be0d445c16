use png::crc::Crc32;
use png::{
    ColorType, Decoded, DecodingError, HasParameters, Progress, Reader, Transformations,
    Unsupported,
};

const SIGNATURE: [u8; 8] = [137, 80, 78, 71, 13, 10, 26, 10];

fn chunk(kind: &[u8; 4], data: &[u8]) -> Vec<u8> {
    let mut crc = Crc32::new();
    crc.update(kind);
    crc.update(data);
    let mut bytes = (data.len() as u32).to_be_bytes().to_vec();
    bytes.extend_from_slice(kind);
    bytes.extend_from_slice(data);
    bytes.extend_from_slice(&crc.checksum().to_be_bytes());
    bytes
}

/// A file with one image: `before` stands between the header and the image data.
fn image_file(
    width: u32,
    height: u32,
    bit_depth: u8,
    color_type: u8,
    before: &[Vec<u8>],
    raw: &[u8],
) -> Vec<u8> {
    let mut header = width.to_be_bytes().to_vec();
    header.extend_from_slice(&height.to_be_bytes());
    header.extend_from_slice(&[bit_depth, color_type, 0, 0, 0]);
    let mut bytes = SIGNATURE.to_vec();
    bytes.extend_from_slice(&chunk(b"IHDR", &header));
    for chunk in before {
        bytes.extend_from_slice(chunk);
    }
    let packed = miniz_oxide::deflate::compress_to_vec_zlib(raw, 6);
    for part in packed.chunks(9) {
        bytes.extend_from_slice(&chunk(b"IDAT", part));
    }
    bytes.extend_from_slice(&chunk(b"IEND", &[]));
    bytes
}

fn reader_of(bytes: &[u8]) -> Reader {
    let mut reader = Reader::new();
    reader.feed(bytes);
    reader
}

/// All processed rows, where the file is handed over in pieces of `size` bytes.
fn rows(
    bytes: &[u8],
    size: usize,
    transform: Option<Transformations>,
) -> Result<Vec<Vec<u8>>, DecodingError> {
    let mut reader = Reader::new();
    if let Some(transform) = transform {
        reader.set(transform);
    }
    let mut pieces = bytes.chunks(size);
    let mut rows = Vec::new();
    loop {
        match reader.next_row()? {
            Progress::Done(Some(row)) => rows.push(row.to_vec()),
            Progress::Done(None) => return Ok(rows),
            Progress::NeedInput => reader.feed(pieces.next().unwrap()),
        }
    }
}

fn raw_rows(bytes: &[u8], size: usize) -> Result<Vec<Vec<u8>>, DecodingError> {
    let mut reader = Reader::new();
    let mut pieces = bytes.chunks(size);
    let mut rows = Vec::new();
    loop {
        match reader.next_raw_row()? {
            Progress::Done(Some(row)) => rows.push(row.to_vec()),
            Progress::Done(None) => return Ok(rows),
            Progress::NeedInput => reader.feed(pieces.next().unwrap()),
        }
    }
}

fn truecolor(width: usize, height: usize) -> Vec<u8> {
    let mut raw = Vec::new();
    for y in 0..height {
        raw.push((y % 5) as u8);
        for x in 0..width * 4 {
            raw.push((x * 7 + y * 13) as u8);
        }
    }
    raw
}

#[test]
fn size_correct() {
    let truecolor = truecolor(60, 45);
    let deep: Vec<u8> = (0..32 * (32 * 6 + 1))
        .map(|i| if i % (32 * 6 + 1) == 0 { 0 } else { i as u8 })
        .collect();
    let files = [
        image_file(60, 45, 8, 6, &[], &truecolor),
        image_file(32, 32, 16, 2, &[], &deep),
    ];
    for file in files.iter() {
        let mut reader = reader_of(file);
        let expected_bytes = match reader.read_info().unwrap() {
            Progress::Done(info) => info.raw_bytes(),
            Progress::NeedInput => panic!(),
        };
        let mut bytes = 0;
        while let Progress::Done(Some(obj)) = reader.decode_next().unwrap() {
            match obj {
                Decoded::ImageData(data) => bytes += data.len() as u128,
                _ => (),
            }
        }
        assert_eq!(expected_bytes, bytes);
    }
}

#[test]
fn rows_ok() {
    let mut reader = reader_of(&image_file(60, 45, 8, 6, &[], &truecolor(60, 45)));
    assert!(matches!(reader.read_info(), Ok(Progress::Done(_))));
    let mut count = 0;
    while let Progress::Done(Some(row)) = reader.next_row().unwrap() {
        assert_eq!(row.len(), 240);
        count += 1;
    }
    assert_eq!(count, 45);
}

#[test]
fn rows_are_freed_of_their_filters() {
    let raw = [
        0, 10, 20, 30, 40, //
        1, 1, 1, 1, 1, //
        2, 1, 1, 1, 1, //
        3, 1, 1, 1, 1, //
        4, 1, 1, 1, 1,
    ];
    let bytes = image_file(4, 5, 8, 0, &[], &raw);
    let expected = vec![
        vec![10, 20, 30, 40],
        vec![1, 2, 3, 4],
        vec![2, 3, 4, 5],
        vec![2, 3, 4, 5],
        vec![3, 4, 5, 6],
    ];
    assert_eq!(raw_rows(&bytes, bytes.len()).unwrap(), expected);
    assert_eq!(rows(&bytes, bytes.len(), None).unwrap(), expected);
}

#[test]
fn pieces_of_any_size_give_the_same_rows() {
    let bytes = image_file(60, 45, 8, 6, &[], &truecolor(60, 45));
    let whole = rows(&bytes, bytes.len(), None).unwrap();
    assert_eq!(whole.len(), 45);
    for size in [1, 2, 5, 33, 1000] {
        assert_eq!(rows(&bytes, size, None).unwrap(), whole);
        assert_eq!(raw_rows(&bytes, size).unwrap(), whole);
    }
}

#[test]
fn meta_data_needs_input() {
    let bytes = image_file(3, 1, 8, 0, &[], &[0, 1, 2, 3]);
    let mut reader = Reader::new();
    let mut fed = 0;
    loop {
        match reader.read_info().unwrap() {
            Progress::Done(info) => {
                assert_eq!((info.width, info.height), (3, 1));
                break;
            }
            Progress::NeedInput => {}
        }
        reader.feed(&bytes[fed..fed + 1]);
        fed += 1;
    }
    // The signature, the header chunk, and the begin of the image data.
    assert_eq!(fed, 8 + 25 + 8);
    assert!(matches!(reader.read_info(), Ok(Progress::Done(_))));
    assert!(matches!(reader.next_row(), Ok(Progress::NeedInput)));
    reader.feed(&bytes[fed..]);
    match reader.next_row().unwrap() {
        Progress::Done(Some(row)) => assert_eq!(row, &[1, 2, 3]),
        other => panic!("{:?}", other),
    }
    assert!(matches!(reader.next_row(), Ok(Progress::Done(None))));
}

#[test]
fn blocks_up_to_the_end() {
    let bytes = image_file(3, 1, 8, 0, &[chunk(b"teSt", &[1])], &[0, 1, 2, 3]);
    let mut reader = reader_of(&bytes);
    let mut begun = Vec::new();
    let mut image = Vec::new();
    loop {
        match reader.decode_next().unwrap() {
            Progress::Done(Some(Decoded::ChunkBegin(_, kind))) => begun.push(kind),
            Progress::Done(Some(Decoded::ImageData(data))) => image.extend_from_slice(data),
            Progress::Done(Some(_)) => {}
            Progress::Done(None) => break,
            Progress::NeedInput => panic!(),
        }
    }
    assert_eq!(image, vec![0, 1, 2, 3]);
    assert_eq!(begun[0], *b"IHDR");
    assert_eq!(begun[1], *b"teSt");
    assert_eq!(begun[2], *b"IDAT");
    assert_eq!(begun[begun.len() - 1], *b"IEND");
}

#[test]
fn indexed_rows_are_expanded() {
    let palette = chunk(b"PLTE", &[1, 2, 3, 4, 5, 6, 7, 8, 9, 10, 11, 12]);
    for (depth, raw) in [
        (2, vec![0, 0b00_01_10_11]),
        (4, vec![0, 0x01, 0x23]),
        (8, vec![0, 0, 1, 2, 3]),
    ] {
        let bytes = image_file(4, 1, depth, 3, &[palette.clone()], &raw);
        assert_eq!(
            rows(&bytes, bytes.len(), None).unwrap(),
            vec![vec![1, 2, 3, 4, 5, 6, 7, 8, 9, 10, 11, 12]]
        );
        let clear = chunk(b"tRNS", &[50, 60]);
        let bytes = image_file(4, 1, depth, 3, &[palette.clone(), clear], &raw);
        assert_eq!(
            rows(&bytes, bytes.len(), None).unwrap(),
            vec![vec![1, 2, 3, 50, 4, 5, 6, 60, 7, 8, 9, 255, 10, 11, 12, 255]]
        );
    }
    let bytes = image_file(9, 1, 1, 3, &[palette], &[0, 0b1000_0001, 0b1000_0000]);
    let row = &rows(&bytes, bytes.len(), None).unwrap()[0];
    assert_eq!(row.len(), 27);
    assert_eq!(&row[..6], &[4, 5, 6, 1, 2, 3]);
    assert_eq!(&row[21..], &[4, 5, 6, 4, 5, 6]);
}

#[test]
fn gray_rows_are_expanded() {
    let bytes = image_file(10, 1, 1, 0, &[], &[0, 0b1010_0000, 0b0100_0000]);
    assert_eq!(
        rows(&bytes, bytes.len(), None).unwrap(),
        vec![vec![1, 0, 1, 0, 0, 0, 0, 0, 0, 1]]
    );
    let bytes = image_file(3, 1, 4, 0, &[], &[0, 0x9A, 0xB0]);
    assert_eq!(
        rows(&bytes, bytes.len(), None).unwrap(),
        vec![vec![9, 10, 11]]
    );
}

#[test]
fn rows_as_they_are() {
    let palette = chunk(b"PLTE", &[1, 2, 3, 4, 5, 6]);
    let bytes = image_file(4, 1, 4, 3, &[palette], &[0, 0x01, 0x10]);
    for transform in [Transformations::identity(), Transformations::from_bits(1)] {
        assert_eq!(
            rows(&bytes, bytes.len(), Some(transform)).unwrap(),
            vec![vec![0x01, 0x10]]
        );
    }
}

#[test]
fn announced_color_types() {
    let palette = chunk(b"PLTE", &[1, 2, 3]);
    let clear = chunk(b"tRNS", &[7]);
    let kinds: [(u8, u8, Vec<Vec<u8>>, (ColorType, u8)); 10] = [
        (0, 4, vec![], (ColorType::Grayscale, 8)),
        (2, 8, vec![], (ColorType::RGB, 8)),
        (2, 16, vec![], (ColorType::RGB, 16)),
        (3, 2, vec![palette.clone()], (ColorType::RGB, 8)),
        (3, 2, vec![palette.clone(), clear], (ColorType::RGBA, 8)),
        (4, 8, vec![], (ColorType::GrayscaleAlpha, 8)),
        (6, 8, vec![], (ColorType::RGBA, 8)),
        (6, 16, vec![], (ColorType::RGBA, 16)),
        (0, 16, vec![], (ColorType::Grayscale, 8)),
        (4, 16, vec![], (ColorType::GrayscaleAlpha, 8)),
    ];
    for (code, depth, before, expected) in kinds {
        let bytes = image_file(1, 1, depth, code, &before, &[0, 0, 0, 0, 0, 0, 0]);
        let mut reader = reader_of(&bytes);
        match reader.color_type().unwrap() {
            Progress::Done(kind) => assert_eq!(kind, expected),
            Progress::NeedInput => panic!(),
        }
        let mut reader = reader_of(&bytes);
        reader.set(Transformations::identity());
        match reader.color_type().unwrap() {
            Progress::Done(kind) => {
                assert_eq!(kind, (ColorType::from_u8(code).unwrap(), depth))
            }
            Progress::NeedInput => panic!(),
        }
    }
    assert!(matches!(
        Reader::new().color_type(),
        Ok(Progress::NeedInput)
    ));
}

#[test]
fn rows_have_the_announced_length() {
    let palette = chunk(b"PLTE", &[0; 48]);
    for (code, depth, bytes_per_row) in [
        (0, 2, 11),
        (0, 16, 11),
        (2, 8, 33),
        (2, 16, 66),
        (3, 4, 33),
        (4, 8, 22),
        (6, 8, 44),
        (6, 16, 88),
    ] {
        let raw = vec![0; 2 * 45];
        let file = image_file(11, 1, depth, code, &[palette.clone()], &raw);
        let mut reader = reader_of(&file);
        let (color_type, bits) = match reader.color_type().unwrap() {
            Progress::Done(kind) => kind,
            Progress::NeedInput => panic!(),
        };
        match reader.next_row().unwrap() {
            Progress::Done(Some(row)) => {
                assert_eq!(row.len(), bytes_per_row);
                assert_eq!(row.len(), 11 * color_type.samples() * bits as usize / 8);
            }
            other => panic!("{:?}", other),
        }
    }
}

#[test]
fn what_cannot_be_expanded() {
    let palette = chunk(b"PLTE", &[1, 2, 3]);
    let cases = [
        (
            image_file(2, 1, 8, 3, &[palette.clone()], &[0, 0, 5]),
            Unsupported::PaletteIndex(5),
        ),
        (
            image_file(2, 1, 8, 3, &[], &[0, 0, 0]),
            Unsupported::MissingPalette,
        ),
        (
            image_file(1, 1, 16, 3, &[palette], &[0, 0, 0]),
            Unsupported::SampleDepth(16),
        ),
    ];
    for (bytes, what) in cases {
        match rows(&bytes, bytes.len(), None) {
            Err(DecodingError::Unsupported(found)) => assert_eq!(found, what),
            other => panic!("{:?}", other),
        }
        assert!(rows(&bytes, bytes.len(), Some(Transformations::identity())).is_ok());
    }
}

#[test]
fn a_file_without_a_header() {
    let mut bytes = SIGNATURE.to_vec();
    bytes.extend_from_slice(&chunk(b"IEND", &[]));
    match reader_of(&bytes).read_info() {
        Err(DecodingError::Format(text)) => assert_eq!(text, "IHDR chunk missing"),
        other => panic!("{:?}", other),
    };
}

#[test]
fn an_unknown_filter() {
    let bytes = image_file(2, 1, 8, 0, &[], &[9, 1, 2]);
    match raw_rows(&bytes, bytes.len()) {
        Err(DecodingError::Format(text)) => assert_eq!(text, "invalid filter method (9)"),
        other => panic!("{:?}", other),
    }
}

#[test]
fn a_failed_reader_says_so() {
    let mut reader = reader_of(&[0; 20]);
    assert!(!reader.has_failed());
    assert!(matches!(
        reader.next_row(),
        Err(DecodingError::InvalidSignature)
    ));
    assert!(reader.has_failed());
}

#[test]
fn a_row_after_input_that_failed() {
    let bytes = image_file(3, 2, 8, 0, &[], &[0, 1, 2, 3, 0, 4, 5, 6]);
    // The length, the type and the first byte of data of the first chunk of image data.
    let start = 8 + 25 + 9;
    let mut reader = reader_of(&bytes[..start]);
    assert!(matches!(reader.next_row(), Ok(Progress::NeedInput)));
    reader.input_failed();
    reader.feed(&bytes[start..]);
    match reader.next_row().unwrap() {
        Progress::Done(Some(row)) => assert_eq!(row, &[1, 2, 3]),
        other => panic!("{:?}", other),
    }
    match reader.next_raw_row().unwrap() {
        Progress::Done(Some(row)) => assert_eq!(row, &[4, 5, 6]),
        other => panic!("{:?}", other),
    }
}

#[test]
fn a_row_after_a_row_that_was_refused() {
    let palette = chunk(b"PLTE", &[1, 2, 3]);
    let bytes = image_file(1, 2, 8, 3, &[palette], &[0, 5, 0, 0]);
    let mut reader = reader_of(&bytes);
    assert!(matches!(
        reader.next_row(),
        Err(DecodingError::Unsupported(Unsupported::PaletteIndex(5)))
    ));
    match reader.next_row().unwrap() {
        Progress::Done(Some(row)) => assert_eq!(row, &[1, 2, 3]),
        other => panic!("{:?}", other),
    }
}

fn indexed_file() -> Vec<u8> {
    image_file(
        2,
        1,
        8,
        3,
        &[chunk(b"PLTE", &[1, 2, 3, 4, 5, 6]), chunk(b"tRNS", &[7])],
        &[0, 1, 0],
    )
}

#[test]
fn meta_data_after_the_header_was_decoded() {
    let mut reader = reader_of(&indexed_file());
    loop {
        match reader.decode_next().unwrap() {
            Progress::Done(Some(Decoded::Header(..))) => break,
            Progress::Done(Some(_)) => {}
            other => panic!("{:?}", other),
        }
    }
    match reader.read_info().unwrap() {
        Progress::Done(info) => {
            assert_eq!(info.palette, Some(vec![1, 2, 3, 4, 5, 6]));
            assert_eq!(info.trns, Some(vec![7]));
        }
        Progress::NeedInput => panic!(),
    }
    assert!(matches!(
        reader.decode_next(),
        Ok(Progress::Done(Some(Decoded::ImageData(_))))
    ));
}

#[test]
fn rows_after_the_header_was_decoded() {
    let mut reader = reader_of(&indexed_file());
    for _ in 0..2 {
        assert!(matches!(
            reader.decode_next(),
            Ok(Progress::Done(Some(_)))
        ));
    }
    match reader.next_row().unwrap() {
        Progress::Done(Some(row)) => assert_eq!(row, &[4, 5, 6, 255, 1, 2, 3, 7]),
        other => panic!("{:?}", other),
    }
    assert!(matches!(reader.next_row(), Ok(Progress::Done(None))));
}

#[test]
fn rows_after_the_image_data_was_come_to() {
    let mut reader = reader_of(&indexed_file());
    loop {
        match reader.decode_next().unwrap() {
            Progress::Done(Some(Decoded::ChunkBegin(_, kind))) if &kind == b"IDAT" => break,
            Progress::Done(Some(_)) => {}
            other => panic!("{:?}", other),
        }
    }
    assert!(matches!(reader.read_info(), Ok(Progress::Done(_))));
    match reader.next_raw_row().unwrap() {
        Progress::Done(Some(row)) => assert_eq!(row, &[1, 0]),
        other => panic!("{:?}", other),
    }
}

#[test]
fn meta_data_after_input_that_failed() {
    let bytes = indexed_file();
    // Within the palette chunk.
    let start = 8 + 25 + 10;
    let mut reader = reader_of(&bytes[..start]);
    assert!(matches!(reader.read_info(), Ok(Progress::NeedInput)));
    reader.input_failed();
    reader.feed(&bytes[start..]);
    match reader.read_info().unwrap() {
        Progress::Done(info) => assert_eq!(info.trns, Some(vec![7])),
        Progress::NeedInput => panic!(),
    }
    match reader.next_row().unwrap() {
        Progress::Done(Some(row)) => assert_eq!(row.len(), 8),
        other => panic!("{:?}", other),
    }
}

#[test]
fn meta_data_after_a_failure() {
    let mut bytes = indexed_file();
    // The first byte of the check of the palette chunk.
    bytes[8 + 25 + 14] ^= 1;
    let mut reader = reader_of(&bytes);
    assert!(matches!(
        reader.read_info(),
        Err(DecodingError::CrcMismatch { .. })
    ));
    match reader.read_info().unwrap() {
        Progress::Done(info) => assert_eq!((info.width, info.height), (2, 1)),
        Progress::NeedInput => panic!(),
    }
    let mut reader = reader_of(&[0; 20]);
    assert!(reader.read_info().is_err());
    match reader.read_info() {
        Err(DecodingError::Format(text)) => assert_eq!(text, "IHDR chunk missing"),
        other => panic!("{:?}", other),
    };
}

#[test]
fn a_row_keeps_the_pixels_it_was_begun_with() {
    // A second header within the only row, of the same row length and another color type.
    let raw = [0, 0x12, 0x34];
    let packed = miniz_oxide::deflate::compress_to_vec_zlib(&raw, 6);
    let mut bytes = SIGNATURE.to_vec();
    let header = [0, 0, 0, 4, 0, 0, 0, 1, 4, 0, 0, 0, 0];
    bytes.extend_from_slice(&chunk(b"IHDR", &header));
    bytes.extend_from_slice(&chunk(b"IDAT", &packed[..3]));
    let second = [0, 0, 0, 2, 0, 0, 0, 1, 8, 0, 0, 0, 0];
    bytes.extend_from_slice(&chunk(b"IHDR", &second));
    bytes.extend_from_slice(&chunk(b"IDAT", &packed[3..]));
    bytes.extend_from_slice(&chunk(b"IEND", &[]));
    let whole = rows(&bytes, bytes.len(), None).unwrap();
    assert_eq!(whole.len(), 1);
    for size in [1, 2, 3, 5, 8, 13] {
        assert_eq!(rows(&bytes, size, None).unwrap(), whole);
    }
}

#[test]
fn untransformed_rows_are_raw_rows() {
    let good = image_file(60, 45, 8, 6, &[], &truecolor(60, 45));
    let identity = Some(Transformations::identity());
    assert_eq!(
        rows(&good, 100, identity).unwrap(),
        raw_rows(&good, 100).unwrap()
    );
    let bad = image_file(2, 2, 8, 0, &[], &[0, 1, 2, 9, 1, 2]);
    let mut a = reader_of(&bad);
    a.set(Transformations::identity());
    let mut b = reader_of(&bad);
    for _ in 0..3 {
        assert_eq!(
            format!("{:?}", a.next_row()),
            format!("{:?}", b.next_raw_row())
        );
    }
}

fn decode_to_the_end(reader: &mut Reader) {
    loop {
        match reader.decode_next().unwrap() {
            Progress::Done(Some(_)) => {}
            Progress::Done(None) => break,
            Progress::NeedInput => panic!(),
        }
    }
}

#[test]
fn meta_data_behind_the_image() {
    let header = [0, 0, 0, 4, 0, 0, 0, 1, 4, 0, 0, 0, 0];
    let mut empty = SIGNATURE.to_vec();
    empty.extend_from_slice(&chunk(b"IHDR", &header));
    let mut without = empty.clone();
    empty.extend_from_slice(&chunk(b"IDAT", &[]));
    empty.extend_from_slice(&chunk(b"IEND", &[]));
    without.extend_from_slice(&chunk(b"IEND", &[]));
    let whole = image_file(4, 1, 4, 0, &[], &[0, 0x12, 0x34]);
    for bytes in [empty, without, whole] {
        let mut reader = reader_of(&bytes);
        decode_to_the_end(&mut reader);
        match reader.read_info().unwrap() {
            Progress::Done(info) => {
                assert_eq!((info.width, info.height), (4, 1));
                assert_eq!(info.raw_row_length(), 3);
            }
            Progress::NeedInput => panic!(),
        }
        match reader.color_type().unwrap() {
            Progress::Done(kind) => assert_eq!(kind, (ColorType::Grayscale, 8)),
            Progress::NeedInput => panic!(),
        }
        let mut reader = reader_of(&bytes);
        decode_to_the_end(&mut reader);
        match reader.color_type().unwrap() {
            Progress::Done(kind) => assert_eq!(kind, (ColorType::Grayscale, 8)),
            Progress::NeedInput => panic!(),
        }
    }
}

#[test]
fn meta_data_between_chunks_of_image_data() {
    let bytes = image_file(60, 45, 8, 6, &[], &truecolor(60, 45));
    let mut reader = reader_of(&bytes);
    loop {
        match reader.decode_next().unwrap() {
            Progress::Done(Some(Decoded::ChunkComplete(_, kind))) if &kind == b"IDAT" => break,
            Progress::Done(Some(_)) => {}
            other => panic!("{:?}", other),
        }
    }
    assert!(matches!(reader.read_info(), Ok(Progress::Done(_))));
    match reader.decode_next().unwrap() {
        Progress::Done(Some(Decoded::ChunkBegin(9, kind))) => assert_eq!(&kind, b"IDAT"),
        other => panic!("{:?}", other),
    }
}

#[test]
fn an_empty_chunk_of_image_data_before_the_header() {
    let mut bytes = SIGNATURE.to_vec();
    bytes.extend_from_slice(&chunk(b"IDAT", &[]));
    bytes.extend_from_slice(&image_file(3, 1, 8, 0, &[], &[0, 1, 2, 3])[8..]);
    for size in [1, 7, bytes.len()] {
        let mut reader = Reader::new();
        let mut pieces = bytes.chunks(size);
        let mut errors = 0;
        let row = loop {
            match reader.next_row() {
                Ok(Progress::Done(row)) => break row.unwrap().to_vec(),
                Ok(Progress::NeedInput) => {}
                Err(DecodingError::Format(text)) => {
                    assert_eq!(text, "IHDR chunk missing");
                    errors += 1;
                    continue;
                }
                Err(other) => panic!("{:?}", other),
            }
            reader.feed(pieces.next().unwrap());
        };
        assert_eq!(errors, 1);
        assert_eq!(row, vec![1, 2, 3]);
    }
}

#[test]
fn rows_with_nothing_to_expand() {
    for (code, depth, bytes_per_pixel) in [
        (0, 8, 1),
        (2, 8, 3),
        (2, 16, 6),
        (4, 8, 2),
        (6, 8, 4),
        (6, 16, 8),
    ] {
        let mut raw = Vec::new();
        for y in 0..3u8 {
            raw.push(0);
            for x in 0..5 * bytes_per_pixel {
                raw.push(x * 3 + y * 41);
            }
        }
        let bytes = image_file(5, 3, depth, code, &[], &raw);
        let found = rows(&bytes, bytes.len(), None).unwrap();
        assert_eq!(found, raw_rows(&bytes, bytes.len()).unwrap());
        assert_eq!(found.len(), 3);
        assert_eq!(&found[2][..], &raw[raw.len() - 5 * bytes_per_pixel as usize..]);
    }
}

#[test]
fn rows_of_a_file_that_is_cut_short() {
    let raw = truecolor(60, 45);
    let bytes = image_file(60, 45, 8, 6, &[], &raw);
    let whole = raw_rows(&bytes, bytes.len()).unwrap();
    let mut reader = reader_of(&bytes[..bytes.len() / 2]);
    let mut found = Vec::new();
    loop {
        match reader.next_raw_row().unwrap() {
            Progress::Done(Some(row)) => found.push(row.to_vec()),
            Progress::Done(None) => panic!(),
            Progress::NeedInput => break,
        }
    }
    assert!(found.len() < 45);
    assert_eq!(&found[..], &whole[..found.len()]);
}
