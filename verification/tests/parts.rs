use png::chunk::{same_type, IDAT, IEND, IHDR, PLTE, TRNS};
use png::crc::Crc32;
use png::expand::{expand_gray_u8, expand_paletted};
use png::filter::{unfilter, FilterType};
use png::inflater::{
    after_inflate, interpret_reply, AfterInflate, Inflater, STATUS_BUF, STATUS_OK,
    STATUS_STREAM_END,
};
use png::reader::{grow_row, process_row};
use png::utils::{sample_at, unpack_bits};
use png::{ColorType, DecodingError, Info, Transformations, Unsupported};

fn info(width: u32, height: u32, bit_depth: u8, color_type: ColorType) -> Info {
    Info {
        width,
        height,
        bit_depth,
        color_type,
        interlaced: false,
        trns: None,
        palette: None,
    }
}

#[test]
fn crc_of_digits() {
    let mut crc = Crc32::new();
    assert_eq!(crc.checksum(), 0);
    crc.update(b"1234");
    crc.update(b"56789");
    assert_eq!(crc.checksum(), 0xCBF43926);
    crc.reset();
    crc.update(b"IEND");
    assert_eq!(crc.checksum(), 0xAE426082);
}

#[test]
fn chunk_names() {
    assert_eq!(&IHDR, b"IHDR");
    assert_eq!(&PLTE, b"PLTE");
    assert_eq!(&IDAT, b"IDAT");
    assert_eq!(&IEND, b"IEND");
    assert_eq!(&TRNS, b"tRNS");
    assert!(same_type(IDAT, *b"IDAT"));
    assert!(!same_type(IDAT, *b"IDAU"));
}

#[test]
fn color_types() {
    let known = [
        (0, ColorType::Grayscale, 1),
        (2, ColorType::RGB, 3),
        (3, ColorType::Indexed, 1),
        (4, ColorType::GrayscaleAlpha, 2),
        (6, ColorType::RGBA, 4),
    ];
    for (code, color_type, samples) in known {
        assert_eq!(ColorType::from_u8(code), Some(color_type));
        assert_eq!(color_type.code(), code);
        assert_eq!(color_type.samples(), samples);
    }
    for code in [1, 5, 7, 255] {
        assert_eq!(ColorType::from_u8(code), None);
    }
}

#[test]
fn sizes_of_an_image() {
    let rgb = info(10, 3, 8, ColorType::RGB);
    assert_eq!(rgb.bits_per_pixel(), 24);
    assert_eq!(rgb.bytes_per_pixel(), 3);
    assert_eq!(rgb.raw_row_length(), 31);
    assert_eq!(rgb.raw_bytes(), 93);

    let bits = info(9, 2, 1, ColorType::Grayscale);
    assert_eq!(bits.bits_per_pixel(), 1);
    assert_eq!(bits.bytes_per_pixel(), 1);
    assert_eq!(bits.raw_row_length(), 3);
    assert_eq!(bits.raw_bytes(), 6);

    let deep = info(5, 1, 16, ColorType::RGBA);
    assert_eq!(deep.bits_per_pixel(), 64);
    assert_eq!(deep.bytes_per_pixel(), 8);
    assert_eq!(deep.raw_row_length(), 41);

    let largest = info(u32::MAX, u32::MAX, 16, ColorType::RGBA);
    assert_eq!(largest.raw_row_length(), 34_359_738_361);
    assert_eq!(largest.raw_bytes(), 34_359_738_361u128 * 4_294_967_295u128);
}

#[test]
fn flags() {
    assert!(Transformations::identity().is_identity());
    assert!(!Transformations::expand().is_identity());
    assert!(Transformations::expand().contains(Transformations::expand()));
    assert!(!Transformations::from_bits(0x0001).contains(Transformations::expand()));
    assert!(Transformations::from_bits(0x0011).contains(Transformations::expand()));
    assert_eq!(Transformations::from_bits(0x0010), Transformations::expand());
}

#[test]
fn filter_types() {
    assert_eq!(FilterType::from_u8(0), Some(FilterType::NoFilter));
    assert_eq!(FilterType::from_u8(1), Some(FilterType::Sub));
    assert_eq!(FilterType::from_u8(2), Some(FilterType::Up));
    assert_eq!(FilterType::from_u8(3), Some(FilterType::Avg));
    assert_eq!(FilterType::from_u8(4), Some(FilterType::Paeth));
    assert_eq!(FilterType::from_u8(5), None);
}

#[test]
fn filters_are_undone() {
    let previous = [0u8, 10, 20, 30, 40];
    let cases = [
        (FilterType::NoFilter, vec![9, 1, 2, 3, 250]),
        (FilterType::Sub, vec![9, 1, 2, 4, 252]),
        (FilterType::Up, vec![9, 11, 22, 33, 34]),
        (FilterType::Avg, vec![9, 6, 12, 21, 20]),
        (FilterType::Paeth, vec![9, 11, 22, 33, 34]),
    ];
    for (filter, expected) in cases {
        let mut current = vec![9u8, 1, 2, 3, 250];
        unfilter(filter, 2, &previous, &mut current, 1);
        assert_eq!(current, expected);
    }
}

#[test]
fn paeth_picks_the_closest() {
    // Left, above, corner, and which of them is closest to left + above - corner.
    let cases = [
        (100u8, 10u8, 10u8, 100u8),
        (10, 60, 20, 60),
        (50, 60, 55, 55),
        (7, 7, 7, 7),
        (30, 40, 10, 40),
        (20, 10, 15, 15),
    ];
    for (left, above, corner, closest) in cases {
        // The first byte is predicted from the one above it, which is the corner.
        let mut current = vec![left.wrapping_sub(corner), 3];
        unfilter(FilterType::Paeth, 1, &[corner, above], &mut current, 0);
        assert_eq!(current, vec![left, closest + 3]);
    }
}

#[test]
fn a_filtered_row_comes_back() {
    let previous: Vec<u8> = (0..40u32).map(|i| (i * 37 % 256) as u8).collect();
    let row: Vec<u8> = (0..40u32).map(|i| (i * i * 11 % 256) as u8).collect();
    let bpp = 3;
    let mut stored = row.clone();
    for i in 0..row.len() {
        let left = if i >= bpp { row[i - bpp] } else { 0 };
        stored[i] = row[i].wrapping_sub(((left as u16 + previous[i] as u16) / 2) as u8);
    }
    unfilter(FilterType::Avg, bpp, &previous, &mut stored, 0);
    assert_eq!(stored, row);
}

#[test]
fn samples_lie_side_by_side() {
    let bytes = [0b1011_0001u8, 0xF0];
    assert_eq!(sample_at(&bytes, 1, 0), 1);
    assert_eq!(sample_at(&bytes, 1, 1), 0);
    assert_eq!(sample_at(&bytes, 1, 7), 1);
    assert_eq!(sample_at(&bytes, 1, 8), 1);
    assert_eq!(sample_at(&bytes, 2, 0), 2);
    assert_eq!(sample_at(&bytes, 2, 3), 1);
    assert_eq!(sample_at(&bytes, 4, 0), 11);
    assert_eq!(sample_at(&bytes, 4, 2), 15);
    assert_eq!(sample_at(&bytes, 8, 1), 0xF0);
}

#[test]
fn samples_are_spread_out() {
    let table: Vec<u8> = (0..8).map(|i| i + 100).collect();
    let mut buf = vec![0b00_01_10_11u8, 0b11_00_00_00, 7, 8, 9, 10, 11, 12, 13];
    unpack_bits(&mut buf, 2, 2, &table);
    assert_eq!(buf, vec![100, 101, 102, 103, 104, 105, 106, 107, 13]);
}

#[test]
fn gray_samples_with_a_transparent_one() {
    let mut described = info(4, 1, 2, ColorType::Grayscale);
    described.trns = Some(vec![0, 2]);
    let mut buf = vec![0b00_01_10_11u8, 0, 0, 0, 0, 0, 0, 0];
    assert_eq!(expand_gray_u8(&mut buf, &described), Ok(()));
    assert_eq!(buf, vec![0, 255, 85, 255, 170, 0, 255, 255]);

    described.bit_depth = 4;
    let mut buf = vec![0x2F, 0, 0, 0];
    assert_eq!(expand_gray_u8(&mut buf, &described), Ok(()));
    assert_eq!(buf, vec![34, 0, 255, 255]);

    described.bit_depth = 1;
    let mut buf = vec![0b0100_0000u8, 0, 0, 0];
    assert_eq!(expand_gray_u8(&mut buf, &described), Ok(()));
    assert_eq!(buf, vec![0, 255, 255, 255]);

    described.trns = Some(vec![0]);
    let before = buf.clone();
    assert_eq!(
        expand_gray_u8(&mut buf, &described),
        Err(Unsupported::TransparencyLength)
    );
    assert_eq!(buf, before);

    described.bit_depth = 16;
    assert_eq!(
        expand_gray_u8(&mut buf, &described),
        Err(Unsupported::SampleDepth(16))
    );
}

#[test]
fn gray_samples_without_a_transparent_one() {
    let described = info(8, 1, 1, ColorType::Grayscale);
    let mut buf = vec![0b1010_0011u8, 0, 0, 0, 0, 0, 0, 0];
    assert_eq!(expand_gray_u8(&mut buf, &described), Ok(()));
    assert_eq!(buf, vec![1, 0, 1, 0, 0, 0, 1, 1]);
}

#[test]
fn palette_indices_become_colors() {
    let mut described = info(2, 1, 4, ColorType::Indexed);
    described.palette = Some(vec![1, 2, 3, 4, 5, 6]);
    let mut buf = vec![0x10, 0, 0, 0, 0, 0];
    assert_eq!(expand_paletted(&mut buf, &described), Ok(()));
    assert_eq!(buf, vec![4, 5, 6, 1, 2, 3]);

    described.trns = Some(vec![77]);
    let mut buf = vec![0x10, 0, 0, 0, 0, 0, 0, 0];
    assert_eq!(expand_paletted(&mut buf, &described), Ok(()));
    assert_eq!(buf, vec![4, 5, 6, 255, 1, 2, 3, 77]);
}

#[test]
fn palette_indices_that_stand_for_nothing() {
    let mut described = info(2, 1, 4, ColorType::Indexed);
    let mut buf = vec![0x10, 0, 0, 0, 0, 0];
    assert_eq!(
        expand_paletted(&mut buf, &described),
        Err(Unsupported::MissingPalette)
    );
    described.palette = Some(vec![1, 2, 3, 4, 5]);
    assert_eq!(
        expand_paletted(&mut buf, &described),
        Err(Unsupported::PaletteIndex(1))
    );
    described.bit_depth = 16;
    assert_eq!(
        expand_paletted(&mut buf, &described),
        Err(Unsupported::SampleDepth(16))
    );
    assert_eq!(buf, vec![0x10, 0, 0, 0, 0, 0]);
}

#[test]
fn replies_of_the_decompressor() {
    assert_eq!(interpret_reply(STATUS_STREAM_END, 3, 0, 9), Some(true));
    assert_eq!(interpret_reply(STATUS_OK, 3, 0, 9), Some(false));
    assert_eq!(interpret_reply(STATUS_OK, 0, 3, 9), Some(false));
    assert_eq!(interpret_reply(STATUS_OK, 0, 0, 9), None);
    assert_eq!(interpret_reply(STATUS_OK, 0, 0, 0), Some(false));
    assert_eq!(interpret_reply(STATUS_BUF, 0, 2, 0), Some(false));
    assert_eq!(interpret_reply(STATUS_BUF, 0, 2, 1), None);
    assert_eq!(interpret_reply(-3, 5, 5, 9), None);
}

#[test]
fn a_stream_is_decompressed_in_parts() {
    let plain: Vec<u8> = (0..5000u32).map(|i| (i / 7 % 251) as u8).collect();
    let packed = miniz_oxide::deflate::compress_to_vec_zlib(&plain, 6);
    assert_ne!(packed, plain);
    let mut inflater = Inflater::new();
    let mut output = vec![0u8; 64];
    let mut at = 0;
    let mut found = Vec::new();
    loop {
        let (ended, used, written) = inflater.inflate(&packed[at..], &mut output, 50).unwrap();
        assert!(written <= 50);
        at += used;
        found.extend_from_slice(&output[..written]);
        if ended {
            break;
        }
    }
    assert_eq!(at, packed.len());
    assert_eq!(found, plain);
}

#[test]
fn a_corrupt_stream_is_refused() {
    let mut inflater = Inflater::new();
    let mut output = vec![0u8; 64];
    assert_eq!(inflater.inflate(&[0xFF; 20], &mut output, 64), None);
}

#[test]
fn what_follows_a_part_of_the_stream() {
    assert_eq!(after_inflate(true, 2, 3, 7, 9, 0), AfterInflate::Corrupt);
    assert_eq!(after_inflate(true, 6, 3, 7, 9, 0), AfterInflate::From(9));
    assert_eq!(after_inflate(true, 9, 0, 0, 9, 0), AfterInflate::UsedUp);
    assert_eq!(after_inflate(false, 2, 3, 7, 9, 0), AfterInflate::From(5));
    assert_eq!(after_inflate(false, 2, 3, 0, 9, 4), AfterInflate::From(5));
    assert_eq!(after_inflate(false, 6, 3, 7, 9, 4), AfterInflate::UsedUp);
    assert_eq!(after_inflate(false, 6, 3, 7, 9, 0), AfterInflate::From(9));
    assert_eq!(after_inflate(false, 6, 3, 0, 9, 0), AfterInflate::UsedUp);
}

#[test]
fn a_row_grows() {
    let mut prev = vec![0u8, 10, 20];
    let mut current = Vec::new();
    assert!(matches!(
        grow_row(&mut prev, &mut current, &[2, 1], 1, 3),
        Ok(false)
    ));
    assert_eq!(current, vec![2, 1]);
    assert!(matches!(
        grow_row(&mut prev, &mut current, &[], 1, 3),
        Ok(false)
    ));
    assert!(matches!(
        grow_row(&mut prev, &mut current, &[1], 1, 3),
        Ok(true)
    ));
    assert_eq!(prev, vec![2, 11, 21]);
    assert!(current.is_empty());
    match grow_row(&mut prev, &mut current, &[77, 1, 1], 1, 3) {
        Err(DecodingError::Format(text)) => assert_eq!(text, "invalid filter method (77)"),
        other => panic!("{:?}", other),
    }
    assert_eq!(prev, vec![2, 11, 21]);
    assert_eq!(current, vec![77, 1, 1]);
    let mut none = Vec::new();
    let mut current = Vec::new();
    assert!(matches!(
        grow_row(&mut none, &mut current, &[], 0, 0),
        Ok(false)
    ));
}

#[test]
fn a_row_is_processed() {
    let described = info(4, 1, 4, ColorType::Grayscale);
    let expand = Transformations::expand();
    let other = Transformations::from_bits(1);
    let mut buf = vec![9u8, 9, 9, 9];
    let gray = ColorType::Grayscale;
    assert_eq!(
        process_row(&mut buf, &[0x12, 0x34], gray, 4, &described, other),
        Ok(())
    );
    assert_eq!(buf, vec![0x12, 0x34, 9, 9]);
    assert_eq!(
        process_row(&mut buf, &[0x12, 0x34], gray, 4, &described, expand),
        Ok(())
    );
    assert_eq!(buf, vec![1, 2, 3, 4]);
    assert_eq!(
        process_row(&mut buf, &[5, 6, 7, 8, 9], ColorType::RGB, 8, &described, expand),
        Ok(())
    );
    assert_eq!(buf, vec![5, 6, 7, 8]);
    assert_eq!(
        process_row(&mut buf, &[0, 0, 1], ColorType::Indexed, 4, &described, expand),
        Err(Unsupported::MissingPalette)
    );
    assert_eq!(buf, vec![0, 0, 1, 8]);
}
