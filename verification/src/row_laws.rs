//! Laws of rows: what their bytes are, and what is made of them.
use crate::error::{ErrorModel, Unsupported};
use crate::expand::lemma_none_beyond;
use crate::filter::{filter_type_of, lemma_unfiltered, unfiltered};
use crate::format_laws::{has_alpha, has_color, is_numbered, lemma_numbered};
use crate::image_laws::{lemma_none_is_beyond, lemma_row_alike};
use crate::model::{updated, DecoderModel};
use crate::reader_model::{
    expand_gray, first_beyond, gave_up, gray_scale, info_known, meta_scan, next_block, out_length,
    out_type, overwritten, processed_row, raw_begun, read_meta, read_processed_row, read_raw_row,
    row_begun, row_ends, rows_grown, BlockAnswer, ReaderModel, RowAnswer, StageAnswer,
};
use crate::types::{ColorType, InfoModel, Transformations};
use crate::utils::{
    lemma_sample_bound, lemma_sample_inside, packs, per_byte_spec, room_for, sample, sample_mask,
};
use vstd::arithmetic::div_mod::lemma_fundamental_div_mod_converse;
use vstd::prelude::*;

verus! {

/// A byte of a sequence, and zero in front of it.
pub open spec fn byte_or_zero(bytes: Seq<u8>, i: int) -> int {
    if 0 <= i < bytes.len() {
        bytes[i] as int
    } else {
        0
    }
}

/// How far two numbers are apart.
pub open spec fn gap(a: int, b: int) -> int {
    if a < b {
        b - a
    } else {
        a - b
    }
}

/// `byte` is one of the three neighbours, none is closer to `left + above - corner`, and of those
/// that are as close the left one goes before the one above, and that before the corner.
pub open spec fn is_closest(left: int, above: int, corner: int, byte: int) -> bool {
    let estimate = left + above - corner;
    let closeness = gap(estimate, byte);
    &&& byte == left || byte == above || byte == corner
    &&& closeness <= gap(estimate, left)
    &&& closeness <= gap(estimate, above)
    &&& closeness <= gap(estimate, corner)
    &&& closeness == gap(estimate, left) ==> byte == left
    &&& closeness == gap(estimate, above) ==> byte == left || byte == above
}

/// There are five filters, named by the bytes up to 4.
pub proof fn lemma_filter_codes(code: u8)
    ensures
        filter_type_of(code) is Some <==> code <= 4,
{
}

/// What each byte of a row is, by the filter that the row was put through. Its difference from the
/// stored byte, modulo 256, is nothing, the byte a pixel to the left, the byte above, half of the
/// two, or the one of its neighbours that is closest to where they point. There are zeros to the
/// left of a row.
#[verifier::rlimit(40)]
pub proof fn lemma_row_bytes(
    code: u8,
    bpp: int,
    above: Seq<u8>,
    stored: Seq<u8>,
    i: int,
    guess: int,
)
    requires
        code <= 4,
        bpp >= 1,
        above.len() == stored.len(),
        0 <= i < stored.len(),
        0 <= guess <= 255,
        ({
            let row = unfiltered(filter_type_of(code)->0, bpp, above, stored);
            let left = byte_or_zero(row, i - bpp);
            let corner = byte_or_zero(above, i - bpp);
            &&& code == 0 ==> guess == 0
            &&& code == 1 ==> guess == left
            &&& code == 2 ==> guess == above[i]
            &&& code == 3 ==> 2 * guess <= left + above[i] <= 2 * guess + 1
            &&& code == 4 ==> is_closest(left, above[i] as int, corner, guess)
        }),
    ensures
        ({
            let row = unfiltered(filter_type_of(code)->0, bpp, above, stored);
            &&& row.len() == stored.len()
            &&& (row[i] - stored[i] - guess) % 256 == 0
        }),
{
    let filter = filter_type_of(code)->0;
    let row = unfiltered(filter, bpp, above, stored);
    lemma_unfiltered(filter, bpp, above, stored, row);
    assert(row[i] == row[i]);
}

/// The power of two that a number of bits makes room for.
pub open spec fn two_to(bits: int) -> int
    decreases bits,
{
    if bits <= 0 {
        1
    } else {
        2 * two_to(bits - 1)
    }
}

/// The number that the first `count` samples of byte `i` make, side by side, the first in front.
pub open spec fn samples_value(bytes: Seq<u8>, bit_depth: u8, i: int, count: int) -> int
    decreases count,
{
    if count <= 0 {
        0
    } else {
        let per_byte = 8int / (bit_depth as int);
        samples_value(bytes, bit_depth, i, count - 1) * two_to(bit_depth as int) + sample(
            bytes,
            bit_depth,
            i * per_byte + count - 1,
        )
    }
}

/// Which bits of a byte a sample is.
proof fn lemma_sample_bits(bytes: Seq<u8>, bit_depth: u8, i: int, k: int)
    requires
        packs(bit_depth),
        0 <= k < per_byte_spec(bit_depth),
    ensures
        ({
            let per_byte = per_byte_spec(bit_depth);
            sample(bytes, bit_depth, i * per_byte + k) == (bytes[i] >> ((8 - bit_depth * (1
                + k)) as u8)) & sample_mask(bit_depth)
        }),
{
    let per_byte = per_byte_spec(bit_depth);
    lemma_fundamental_div_mod_converse(i * per_byte + k, per_byte, i, k);
}

/// One sample more.
proof fn lemma_value_grows(bytes: Seq<u8>, bit_depth: u8, i: int, count: int, per_byte: int)
    requires
        count >= 1,
        per_byte == 8int / (bit_depth as int),
    ensures
        samples_value(bytes, bit_depth, i, 0) == 0,
        samples_value(bytes, bit_depth, i, count) == samples_value(bytes, bit_depth, i, count - 1)
            * two_to(bit_depth as int) + sample(bytes, bit_depth, i * per_byte + count - 1),
{
}

/// The powers of two that samples go by.
proof fn lemma_two_to()
    ensures
        two_to(1) == 2,
        two_to(2) == 4,
        two_to(4) == 16,
        two_to(8) == 256,
{
    reveal_with_fuel(two_to, 9);
}

proof fn lemma_bits_make_byte(bytes: Seq<u8>, i: int)
    ensures
        samples_value(bytes, 1, i, 8) == bytes[i],
{
    lemma_two_to();
    let b = bytes[i];
    let s0 = sample(bytes, 1, i * 8 + 0);
    let s1 = sample(bytes, 1, i * 8 + 1);
    let s2 = sample(bytes, 1, i * 8 + 2);
    let s3 = sample(bytes, 1, i * 8 + 3);
    let s4 = sample(bytes, 1, i * 8 + 4);
    let s5 = sample(bytes, 1, i * 8 + 5);
    let s6 = sample(bytes, 1, i * 8 + 6);
    let s7 = sample(bytes, 1, i * 8 + 7);
    lemma_sample_bits(bytes, 1, i, 0);
    lemma_sample_bits(bytes, 1, i, 1);
    lemma_sample_bits(bytes, 1, i, 2);
    lemma_sample_bits(bytes, 1, i, 3);
    lemma_sample_bits(bytes, 1, i, 4);
    lemma_sample_bits(bytes, 1, i, 5);
    lemma_sample_bits(bytes, 1, i, 6);
    lemma_sample_bits(bytes, 1, i, 7);
    assert(s0 * 128 + s1 * 64 + s2 * 32 + s3 * 16 + s4 * 8 + s5 * 4 + s6 * 2 + s7 == b)
        by (bit_vector)
        requires
            s0 == (b >> 7u8) & 1,
            s1 == (b >> 6u8) & 1,
            s2 == (b >> 5u8) & 1,
            s3 == (b >> 4u8) & 1,
            s4 == (b >> 3u8) & 1,
            s5 == (b >> 2u8) & 1,
            s6 == (b >> 1u8) & 1,
            s7 == (b >> 0u8) & 1,
    ;
    lemma_value_grows(bytes, 1, i, 1, 8);
    lemma_value_grows(bytes, 1, i, 2, 8);
    lemma_value_grows(bytes, 1, i, 3, 8);
    lemma_value_grows(bytes, 1, i, 4, 8);
    lemma_value_grows(bytes, 1, i, 5, 8);
    lemma_value_grows(bytes, 1, i, 6, 8);
    lemma_value_grows(bytes, 1, i, 7, 8);
    lemma_value_grows(bytes, 1, i, 8, 8);
}

proof fn lemma_pairs_make_byte(bytes: Seq<u8>, i: int)
    ensures
        samples_value(bytes, 2, i, 4) == bytes[i],
{
    lemma_two_to();
    let b = bytes[i];
    let s0 = sample(bytes, 2, i * 4 + 0);
    let s1 = sample(bytes, 2, i * 4 + 1);
    let s2 = sample(bytes, 2, i * 4 + 2);
    let s3 = sample(bytes, 2, i * 4 + 3);
    lemma_sample_bits(bytes, 2, i, 0);
    lemma_sample_bits(bytes, 2, i, 1);
    lemma_sample_bits(bytes, 2, i, 2);
    lemma_sample_bits(bytes, 2, i, 3);
    assert(s0 * 64 + s1 * 16 + s2 * 4 + s3 == b) by (bit_vector)
        requires
            s0 == (b >> 6u8) & 3,
            s1 == (b >> 4u8) & 3,
            s2 == (b >> 2u8) & 3,
            s3 == (b >> 0u8) & 3,
    ;
    lemma_value_grows(bytes, 2, i, 1, 4);
    lemma_value_grows(bytes, 2, i, 2, 4);
    lemma_value_grows(bytes, 2, i, 3, 4);
    lemma_value_grows(bytes, 2, i, 4, 4);
}

proof fn lemma_nibbles_make_byte(bytes: Seq<u8>, i: int)
    ensures
        samples_value(bytes, 4, i, 2) == bytes[i],
{
    lemma_two_to();
    let b = bytes[i];
    let s0 = sample(bytes, 4, i * 2 + 0);
    let s1 = sample(bytes, 4, i * 2 + 1);
    lemma_sample_bits(bytes, 4, i, 0);
    lemma_sample_bits(bytes, 4, i, 1);
    assert(s0 * 16 + s1 == b) by (bit_vector)
        requires
            s0 == (b >> 4u8) & 15,
            s1 == (b >> 0u8) & 15,
    ;
    lemma_value_grows(bytes, 4, i, 1, 2);
    lemma_value_grows(bytes, 4, i, 2, 2);
}

proof fn lemma_byte_makes_byte(bytes: Seq<u8>, i: int)
    ensures
        samples_value(bytes, 8, i, 1) == bytes[i],
{
    lemma_two_to();
    let b = bytes[i];
    let s0 = sample(bytes, 8, i * 1 + 0);
    lemma_sample_bits(bytes, 8, i, 0);
    assert(s0 == b) by (bit_vector)
        requires
            s0 == (b >> 0u8) & 255,
    ;
    lemma_value_grows(bytes, 8, i, 1, 1);
}

/// The samples of a byte make up the byte: side by side, the first in the highest bits, each of as
/// many bits as the bit depth says.
pub proof fn lemma_samples_make_bytes(bytes: Seq<u8>, bit_depth: u8, i: int)
    requires
        bit_depth == 1 || bit_depth == 2 || bit_depth == 4 || bit_depth == 8,
        0 <= i < bytes.len(),
    ensures
        samples_value(bytes, bit_depth, i, 8int / (bit_depth as int)) == bytes[i],
        forall|j: int| 0 <= #[trigger] sample(bytes, bit_depth, j) < two_to(bit_depth as int),
{
    lemma_two_to();
    assert forall|j: int| 0 <= #[trigger] sample(bytes, bit_depth, j) < two_to(
        bit_depth as int,
    ) by {
        lemma_sample_bound(bytes, bit_depth, j);
    }
    if bit_depth == 1 {
        lemma_bits_make_byte(bytes, i);
    } else if bit_depth == 2 {
        lemma_pairs_make_byte(bytes, i);
    } else if bit_depth == 4 {
        lemma_nibbles_make_byte(bytes, i);
    } else {
        lemma_byte_makes_byte(bytes, i);
    }
}

/// The sample at position `j` is among the bytes of a row.
pub open spec fn in_row(row: Seq<u8>, bit_depth: u8, j: int) -> bool {
    0 <= j && (j * bit_depth) / 8 < row.len()
}

/// A sample that is written over is that of the row.
proof fn lemma_written_sample(buf: Seq<u8>, row: Seq<u8>, bit_depth: u8, channels: int, j: int)
    requires
        packs(bit_depth),
        channels >= 1,
        in_row(row, bit_depth, j),
        j < room_for(buf, channels),
    ensures
        sample(overwritten(buf, row), bit_depth, j) == sample(row, bit_depth, j),
{
    let per_byte = per_byte_spec(bit_depth);
    lemma_sample_inside(buf.len() as int, channels, per_byte, j);
    assert((j * bit_depth) / 8 == j / per_byte) by {
        assert(bit_depth == 1 ==> (j * 1) / 8 == j / 8);
        assert(bit_depth == 2 ==> (j * 2) / 8 == j / 4);
        assert(bit_depth == 4 ==> (j * 4) / 8 == j / 2);
        assert(bit_depth == 8 ==> (j * 8) / 8 == j);
    }
    assert(overwritten(buf, row)[j / per_byte] == row[j / per_byte]);
}

/// The bytes that a color out of a palette takes: three, and one for its opacity.
pub open spec fn color_bytes(info: InfoModel) -> int {
    if info.trns is Some {
        4
    } else {
        3
    }
}

/// There is room for a color where its bytes lie inside.
proof fn lemma_room_for_color(len: int, info: InfoModel, j: int)
    requires
        0 <= j,
    ensures
        j < len / color_bytes(info) <==> color_bytes(info) * (j + 1) <= len,
{
    if info.trns is Some {
        assert(j < len / 4 <==> 4 * (j + 1) <= len);
    } else {
        assert(j < len / 3 <==> 3 * (j + 1) <= len);
    }
}

/// An expanded row of an indexed image: each pixel is the color that the palette holds for its
/// index, three bytes from three times the index on, for every index; and where there is
/// transparency, the opacity that is given for the index, or full opacity where none is given.
#[verifier::rlimit(40)]
pub proof fn lemma_palette_colors(
    buf: Seq<u8>,
    row: Seq<u8>,
    info: InfoModel,
    transform: Transformations,
    j: int,
)
    requires
        transform.expands(),
        info.color_type == ColorType::Indexed,
        processed_row(buf, row, ColorType::Indexed, info.bit_depth, info, transform) is Ok,
        in_row(row, info.bit_depth, j),
        color_bytes(info) * (j + 1) <= buf.len(),
    ensures
        ({
            let made = processed_row(
                buf,
                row,
                ColorType::Indexed,
                info.bit_depth,
                info,
                transform,
            )->Ok_0;
            let index = sample(row, info.bit_depth, j) as int;
            &&& made.len() == buf.len()
            &&& info.palette matches Some(palette) && {
                &&& 3 * index + 3 <= palette.len()
                &&& info.trns is None ==> {
                    &&& made[3 * j] == palette[3 * index]
                    &&& made[3 * j + 1] == palette[3 * index + 1]
                    &&& made[3 * j + 2] == palette[3 * index + 2]
                }
                &&& info.trns matches Some(opacities) ==> {
                    &&& made[4 * j] == palette[3 * index]
                    &&& made[4 * j + 1] == palette[3 * index + 1]
                    &&& made[4 * j + 2] == palette[3 * index + 2]
                    &&& index < opacities.len() ==> made[4 * j + 3] == opacities[index]
                    &&& index >= opacities.len() ==> made[4 * j + 3] == 255
                }
            }
        }),
{
    let written = overwritten(buf, row);
    let channels = color_bytes(info);
    let pixels = room_for(written, channels);
    lemma_room_for_color(buf.len() as int, info, j);
    lemma_written_sample(buf, row, info.bit_depth, channels, j);
    let palette = info.palette->0;
    lemma_none_beyond(written, info.bit_depth, 0, pixels, palette.len() as int / 3);
    assert(sample(written, info.bit_depth, j) < palette.len() as int / 3);
    if channels == 3 {
        assert((3 * j) / 3 == j && (3 * j + 1) / 3 == j && (3 * j + 2) / 3 == j);
    } else {
        assert((4 * j) / 4 == j && (4 * j + 1) / 4 == j && (4 * j + 2) / 4 == j && (4 * j + 3) / 4
            == j);
    }
}

/// When palette indices can be expanded: where there is a palette, the indices are of at most a
/// byte, and the palette has a color for each of them. Otherwise it is said what is missing.
#[verifier::rlimit(40)]
pub proof fn lemma_palette_covers(
    buf: Seq<u8>,
    row: Seq<u8>,
    info: InfoModel,
    transform: Transformations,
)
    requires
        transform.expands(),
        info.color_type == ColorType::Indexed,
        info.bit_depth == 1 || info.bit_depth == 2 || info.bit_depth == 4 || info.bit_depth == 8
            || info.bit_depth == 16,
        forall|j: int|
            0 <= j && color_bytes(info) * (j + 1) <= buf.len() && info.bit_depth <= 8
                ==> #[trigger] in_row(
                row,
                info.bit_depth,
                j,
            ),
    ensures
        ({
            let made = processed_row(
                buf,
                row,
                ColorType::Indexed,
                info.bit_depth,
                info,
                transform,
            );
            let channels = color_bytes(info);
            &&& info.palette is None ==> made == Err::<Seq<u8>, Unsupported>(
                Unsupported::MissingPalette,
            )
            &&& info.palette is Some && info.bit_depth == 16 ==> made == Err::<
                Seq<u8>,
                Unsupported,
            >(Unsupported::SampleDepth(16))
            &&& info.palette is Some && info.bit_depth <= 8 ==> {
                &&& made is Ok <==> forall|j: int|
                    0 <= j && channels * (j + 1) <= buf.len() ==> 3 * #[trigger] sample(
                        row,
                        info.bit_depth,
                        j,
                    ) + 3 <= info.palette->0.len()
                &&& made matches Err(what) ==> what is PaletteIndex && 3 * what->PaletteIndex_0 + 3
                    > info.palette->0.len()
            }
        }),
{
    if info.palette is Some && info.bit_depth <= 8 {
        let written = overwritten(buf, row);
        let depth = info.bit_depth;
        let channels = color_bytes(info);
        let pixels = room_for(written, channels);
        let limit = info.palette->0.len() as int / 3;
        assert forall|j: int| 0 <= j < pixels implies #[trigger] sample(written, depth, j)
            == sample(row, depth, j) by {
            lemma_room_for_color(buf.len() as int, info, j);
            assert(in_row(row, depth, j));
            lemma_written_sample(buf, row, depth, channels, j);
        }
        let made = processed_row(buf, row, ColorType::Indexed, depth, info, transform);
        if made is Ok {
            lemma_none_beyond(written, depth, 0, pixels, limit);
            assert forall|j: int| 0 <= j && channels * (j + 1) <= buf.len() implies 3
                * #[trigger] sample(row, depth, j) + 3 <= info.palette->0.len() by {
                lemma_room_for_color(buf.len() as int, info, j);
                assert(sample(written, depth, j) < limit);
            }
        } else {
            lemma_beyond_is_beyond(written, depth, 0, pixels, limit);
        }
        if forall|j: int|
            0 <= j && channels * (j + 1) <= buf.len() ==> 3 * #[trigger] sample(row, depth, j) + 3
                <= info.palette->0.len() {
            assert forall|j: int| 0 <= j < pixels implies #[trigger] sample(written, depth, j)
                < limit by {
                lemma_room_for_color(buf.len() as int, info, j);
                assert(3 * sample(row, depth, j) + 3 <= info.palette->0.len());
            }
            lemma_none_is_beyond(written, depth, 0, pixels, limit);
        }
    }
}

/// A sample that is found beyond a limit lies beyond it.
proof fn lemma_beyond_is_beyond(buf: Seq<u8>, bit_depth: u8, from: int, to: int, limit: int)
    ensures
        first_beyond(buf, bit_depth, from, to, limit) matches Some(index)
            ==> index >= limit,
    decreases to - from,
{
    if from < to {
        lemma_beyond_is_beyond(buf, bit_depth, from + 1, to, limit);
    }
}

/// An expanded row of gray samples of less than a byte, without transparency: each sample has a
/// byte of its own.
pub proof fn lemma_gray_samples(
    buf: Seq<u8>,
    row: Seq<u8>,
    info: InfoModel,
    transform: Transformations,
    j: int,
)
    requires
        transform.expands(),
        info.color_type == ColorType::Grayscale || info.color_type == ColorType::GrayscaleAlpha,
        info.bit_depth == 1 || info.bit_depth == 2 || info.bit_depth == 4,
        info.trns is None,
        in_row(row, info.bit_depth, j),
        j < buf.len(),
    ensures
        processed_row(buf, row, info.color_type, info.bit_depth, info, transform) matches Ok(made)
            && {
            &&& made.len() == buf.len()
            &&& made[j] == sample(row, info.bit_depth, j)
        },
{
    lemma_written_sample(buf, row, info.bit_depth, 1, j);
}

/// Gray samples with a transparent one among them: each is scaled so that the largest of its bit
/// depth comes to 255, and is followed by its opacity, none for the transparent one and full for
/// the others.
pub proof fn lemma_gray_with_opacity(buf: Seq<u8>, info: InfoModel, j: int)
    requires
        info.bit_depth == 1 || info.bit_depth == 2 || info.bit_depth == 4 || info.bit_depth == 8,
        info.trns matches Some(transparent) && transparent.len() >= 2,
        0 <= j,
        2 * j + 2 <= buf.len(),
    ensures
        expand_gray(buf, info) matches Ok(made) && {
            let value = sample(buf, info.bit_depth, j);
            &&& made.len() == buf.len()
            &&& made[2 * j] * (two_to(info.bit_depth as int) - 1) == 255 * value
            &&& made[2 * j + 1] == 0 <==> value == info.trns->0[1]
            &&& made[2 * j + 1] == 0 || made[2 * j + 1] == 255
        },
{
    lemma_two_to();
    lemma_sample_bound(buf, info.bit_depth, j);
    assert((2 * j) / 2 == j && (2 * j + 1) / 2 == j && j < room_for(buf, 2));
    let value = sample(buf, info.bit_depth, j);
    let made = expand_gray(buf, info)->Ok_0;
    assert(made[2 * j] == (value * gray_scale(info.bit_depth)) as u8);
    if info.bit_depth == 1 {
        assert(two_to(1) == 2 && value <= 1);
        assert(made[2 * j] == value * 255);
    } else if info.bit_depth == 2 {
        assert(two_to(2) == 4 && value <= 3);
        assert(made[2 * j] == value * 85);
    } else if info.bit_depth == 4 {
        assert(two_to(4) == 16 && value <= 15);
        assert(made[2 * j] == value * 17);
    } else {
        assert(two_to(8) == 256);
        assert(made[2 * j] == value);
    }
}

/// A row with nothing to expand in it is handed out as it is, as far as there is room.
pub proof fn lemma_row_is_copied(
    buf: Seq<u8>,
    row: Seq<u8>,
    pixels: (ColorType, u8),
    info: InfoModel,
    transform: Transformations,
    i: int,
)
    requires
        !transform.expands() || (pixels.0 != ColorType::Indexed && (has_color(pixels.0) || pixels.1
            >= 8)),
        0 <= i < buf.len(),
    ensures
        processed_row(buf, row, pixels.0, pixels.1, info, transform) matches Ok(made) && {
            &&& made.len() == buf.len()
            &&& i < row.len() ==> made[i] == row[i]
            &&& i >= row.len() ==> made[i] == buf[i]
        },
{
}

/// What is announced of expanded rows. They are never of palette indices; they have color where the
/// image has, and an opacity where the image has one or one is added. Where neither a palette is
/// looked up nor an opacity added, the color type is that of the image. Gray samples, colors out of
/// a palette and colors with an added opacity have eight bits, other colors those of the image.
/// Rows that are not expanded are as the image is.
pub proof fn lemma_announced_type(info: InfoModel, transform: Transformations)
    ensures
        ({
            let (color_type, bit_depth) = out_type(info, transform);
            &&& transform.expands() ==> {
                &&& color_type != ColorType::Indexed
                &&& has_color(color_type) == has_color(info.color_type)
                &&& has_alpha(color_type) == (has_alpha(info.color_type) || info.trns is Some)
                &&& info.color_type != ColorType::Indexed && info.trns is None ==> color_type
                    == info.color_type
                &&& bit_depth == (if info.color_type == ColorType::RGBA || (info.color_type
                    == ColorType::RGB && info.trns is None) {
                    info.bit_depth
                } else {
                    8
                })
            }
            &&& !transform.expands() ==> color_type == info.color_type && bit_depth
                == info.bit_depth
        }),
{
    assert(0u32 & 0x0010u32 == 0) by (bit_vector);
}

/// Rows are expanded where the fifth of the flags is set, and handed out as they are where none is.
/// A set of flags has another in it where adding that one changes nothing.
pub proof fn lemma_flags(transform: Transformations, other: u32)
    ensures
        transform.contains_spec(other) <==> transform.bits_spec() | other == transform.bits_spec(),
        transform.expands() <==> (transform.bits_spec() / 16) % 2 == 1,
        transform.is_identity_spec() <==> transform.bits_spec() == 0,
        transform.is_identity_spec() ==> !transform.expands(),
{
    let bits = transform.bits_spec();
    assert((bits & other == other) == (bits | other == bits)) by (bit_vector);
    assert((bits & 0x0010u32 == 0x0010u32) == ((bits / 16) % 2 == 1)) by (bit_vector);
}

/// A row that is complete and starts with a byte that names no filter is an error that names it;
/// what was read is kept. One that starts with a byte that names a filter keeps that byte, and the
/// row behind it has nothing read of it yet. A row that is not complete only grows, and none is
/// complete as long as the length of a row is not known.
pub proof fn lemma_unknown_filter(
    prev: Seq<u8>,
    current: Seq<u8>,
    data: Seq<u8>,
    bpp: nat,
    rowlen: nat,
)
    ensures
        ({
            let raw = current + data;
            let (now_prev, now_current, answer) = rows_grown(prev, current, data, bpp, rowlen);
            &&& rowlen == 0 || raw.len() != rowlen ==> now_prev == prev && now_current == raw
                && answer is Again
            &&& rowlen > 0 && raw.len() == rowlen && raw[0] > 4 ==> {
                &&& now_prev == prev
                &&& now_current == raw
                &&& answer matches RowAnswer::Failed(error) && is_numbered(
                    error,
                    "invalid filter method ("@,
                    raw[0],
                )
            }
            &&& rowlen > 0 && raw.len() == rowlen && raw[0] <= 4 ==> {
                &&& answer is Row
                &&& now_prev[0] == raw[0]
                &&& now_current.len() == 0
            }
        }),
{
    lemma_numbered("invalid filter method ("@, (current + data)[0]);
}

/// The next block is what an update on the bytes at hand reports, and the bytes that it took are
/// passed over, but for those that the end of the image or an error was found in. Without bytes at
/// hand, input is needed.
pub proof fn lemma_block_is_update(d: DecoderModel, pending: Seq<u8>)
    ensures
        pending.len() == 0 ==> next_block(d, pending).answer is NeedInput && next_block(
            d,
            pending,
        ).d == d && next_block(d, pending).pending.len() == 0,
        pending.len() > 0 ==> ({
            let block = next_block(d, pending);
            let update = updated(d, pending);
            &&& block.d == update.after
            &&& update.outcome matches Err(error) ==> (block.answer == BlockAnswer::Failed(error)
                && block.pending == pending)
            &&& update.outcome matches Ok((taken, decoded)) ==> {
                &&& decoded is ImageEnd ==> block.answer is End && block.pending == pending
                &&& decoded is Nothing ==> block.answer is NeedInput
                &&& decoded !is ImageEnd && decoded !is Nothing ==> block.answer
                    == BlockAnswer::Block(decoded)
                &&& decoded !is ImageEnd ==> block.pending == pending.skip(taken as int)
            }
        }),
{
}

/// A row that input could not be read for is begun anew, of the pixels that are then known of the
/// image; nothing of what has been read is lost.
pub proof fn lemma_row_is_begun_anew(r: ReaderModel)
    requires
        info_known(r),
        !r.transform.is_identity_spec(),
    ensures
        r.d.info matches Some(info) ==> row_begun(gave_up(r)).pixels == Some(
            (info.color_type, info.bit_depth),
        ),
        row_begun(gave_up(r)).d == r.d,
        row_begun(gave_up(r)).pending == r.pending,
        row_begun(gave_up(r)).prev == r.prev,
        row_begun(gave_up(r)).current == r.current,
        row_begun(gave_up(r)).processed == r.processed,
        row_begun(gave_up(r)).transform == r.transform,
{
}

/// Meta data that has been read to the image data is accepted wherever the rows of the image, as
/// they are and as they are to be made, fit into the address space; without a header it is refused.
pub proof fn lemma_meta_is_accepted(r: ReaderModel)
    requires
        !info_known(r),
        meta_scan(r.d, r.pending).answer is Ready,
    ensures
        ({
            let (after, answer) = read_meta(r);
            match meta_scan(r.d, r.pending).d.info {
                None => answer == StageAnswer::Failed(ErrorModel::Format("IHDR chunk missing"@)),
                Some(info) => {
                    &&& info.raw_row_length() <= usize::MAX && out_length(info, r.transform)
                        <= usize::MAX ==> answer is Ready
                    &&& info.raw_row_length() > usize::MAX || out_length(info, r.transform)
                        > usize::MAX ==> answer == StageAnswer::Failed(
                        ErrorModel::Unsupported(Unsupported::RowLength),
                    )
                    &&& answer is Ready ==> {
                        &&& after.d.info == Some(info)
                        &&& after.rowlen == info.raw_row_length()
                        &&& after.bpp == info.bytes_per_pixel()
                        &&& after.prev.len() == after.rowlen
                        &&& forall|i: int|
                            0 <= i < after.prev.len() ==> #[trigger] after.prev[i] == 0
                        &&& after.processed.len() == out_length(info, r.transform)
                        &&& after.current == r.current
                        &&& after.transform == r.transform
                    }
                },
            }
        }),
{
}

/// The next processed row is made of the next raw row, by the color type and the bit depth that the
/// image has when it is asked for. Where it cannot be made, the raw row stands in its place.
pub proof fn lemma_next_row_is_made(r: ReaderModel)
    requires
        info_known(r),
        r.d.info is Some,
        r.pixels is None,
        !r.transform.is_identity_spec(),
        row_ends(r),
        read_raw_row(r).1 is Row,
    ensures
        ({
            let info = r.d.info->0;
            let raw = read_raw_row(r).0;
            let made = processed_row(
                r.processed,
                raw.prev.skip(1),
                info.color_type,
                info.bit_depth,
                raw.d.info->0,
                r.transform,
            );
            match read_processed_row(r).1 {
                RowAnswer::Row => made == Ok::<Seq<u8>, Unsupported>(
                    read_processed_row(r).0.processed,
                ),
                RowAnswer::Failed(error) => {
                    let left = read_processed_row(r).0.processed;
                    &&& made is Err
                    &&& error == ErrorModel::Unsupported(made->Err_0)
                    &&& left.len() == r.processed.len()
                    &&& forall|i: int|
                        0 <= i < left.len() ==> #[trigger] left[i] == (if i < raw.prev.len() - 1 {
                            raw.prev[i + 1]
                        } else {
                            r.processed[i]
                        })
                },
                _ => false,
            }
        }),
{
    assert(raw_begun(r) == r);
    lemma_row_alike(row_begun(r), r);
}

} // verus!
