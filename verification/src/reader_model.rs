//! The reader as a mathematical machine: what it holds, and what each operation does to it.
use crate::chunk::idat;
use crate::error::{numbered_spec, ErrorModel, Unsupported};
use crate::filter::{filter_type_of, unfiltered};
use crate::model::{
    decoder_sound, fresh, header_missing, lemma_taken, rank, updated, DecodedModel,
    DecoderModel,
};
use crate::types::{bytes_for, ColorType, InfoModel, Transformations};
use crate::utils::{packs, room_for, sample};
use vstd::prelude::*;

verus! {

/// What a reader holds: the decoder, the bytes that it has not taken yet, the bytes per pixel and
/// the length of a row, the row before and the start of the current row, what is to be made of
/// the rows, the row that was last made, and the color type and the bit depth of the pixels that
/// the row being made was begun with. The length of a row is zero until the meta data was read.
#[verifier::ext_equal]
pub struct ReaderModel {
    pub d: DecoderModel,
    pub pending: Seq<u8>,
    pub bpp: nat,
    pub rowlen: nat,
    pub prev: Seq<u8>,
    pub current: Seq<u8>,
    pub transform: Transformations,
    pub processed: Seq<u8>,
    pub pixels: Option<(ColorType, u8)>,
}

/// What holds of a reader in every state that reading can lead to.
pub open spec fn reader_sound(r: ReaderModel) -> bool {
    &&& decoder_sound(r.d)
    &&& r.rowlen > 0 ==> r.bpp >= 1 && r.prev.len() == r.rowlen && r.d.info is Some
}

/// A number of zeros.
pub open spec fn zeros(n: nat) -> Seq<u8> {
    Seq::new(n, |i: int| 0u8)
}

/// What the next decoded block is.
#[verifier::ext_equal]
pub enum BlockAnswer {
    NeedInput,
    End,
    Block(DecodedModel),
    Failed(ErrorModel),
}

/// The next decoded block, with the decoder and the bytes that are left after it.
#[verifier::ext_equal]
pub struct Block {
    pub d: DecoderModel,
    pub pending: Seq<u8>,
    pub answer: BlockAnswer,
}

/// The next decoded block. The bytes that the end of the image or an error was found in are not
/// passed over.
pub open spec fn next_block(d: DecoderModel, pending: Seq<u8>) -> Block {
    if pending.len() == 0 {
        Block { d, pending, answer: BlockAnswer::NeedInput }
    } else {
        let update = updated(d, pending);
        match update.outcome {
            Err(error) => Block { d: update.after, pending, answer: BlockAnswer::Failed(error) },
            Ok((taken, DecodedModel::Nothing)) => Block {
                d: update.after,
                pending: pending.skip(taken as int),
                answer: BlockAnswer::NeedInput,
            },
            Ok((taken, DecodedModel::ImageEnd)) => Block {
                d: update.after,
                pending,
                answer: BlockAnswer::End,
            },
            Ok((taken, decoded)) => Block {
                d: update.after,
                pending: pending.skip(taken as int),
                answer: BlockAnswer::Block(decoded),
            },
        }
    }
}

/// The block is the first of the image data: its begin, or data of a chunk that had begun.
pub open spec fn starts_image(decoded: DecodedModel) -> bool {
    match decoded {
        DecodedModel::ChunkBegin(_, kind) => kind == idat(),
        DecodedModel::ImageData(_) => true,
        _ => false,
    }
}

/// How a stage of the work ends.
#[verifier::ext_equal]
pub enum StageAnswer {
    Ready,
    NeedInput,
    Failed(ErrorModel),
}

/// How a search for the image data ends, with the decoder and the bytes that are left after it.
#[verifier::ext_equal]
pub struct Scan {
    pub d: DecoderModel,
    pub pending: Seq<u8>,
    pub answer: StageAnswer,
}

/// The blocks up to the first of the image data, or to the end of the image.
pub open spec fn scan(d: DecoderModel, pending: Seq<u8>) -> Scan
    decreases pending.len(), rank(d),
{
    let block = next_block(d, pending);
    match block.answer {
        BlockAnswer::NeedInput => Scan {
            d: block.d,
            pending: block.pending,
            answer: StageAnswer::NeedInput,
        },
        BlockAnswer::Failed(error) => Scan {
            d: block.d,
            pending: block.pending,
            answer: StageAnswer::Failed(error),
        },
        BlockAnswer::End => Scan {
            d: block.d,
            pending: block.pending,
            answer: StageAnswer::Ready,
        },
        BlockAnswer::Block(decoded) => if starts_image(decoded) {
            Scan { d: block.d, pending: block.pending, answer: StageAnswer::Ready }
        } else {
            proof {
                lemma_taken(d, pending);
            }
            scan(block.d, block.pending)
        },
    }
}

/// The number of bits that a pixel of a processed row takes. Expanded gray samples take eight bits
/// each, whatever their bit depth.
pub open spec fn out_bits(info: InfoModel, transform: Transformations) -> nat {
    let trns = info.trns is Some;
    if !transform.expands() {
        info.bits_per_pixel()
    } else {
        match info.color_type {
            ColorType::Indexed => if trns {
                32
            } else {
                24
            },
            ColorType::RGB => if trns {
                32
            } else {
                info.bits_per_pixel()
            },
            ColorType::Grayscale => if trns {
                16
            } else {
                8
            },
            ColorType::GrayscaleAlpha => 16,
            ColorType::RGBA => info.bits_per_pixel(),
        }
    }
}

/// The number of bytes in a processed row.
pub open spec fn out_length(info: InfoModel, transform: Transformations) -> nat {
    bytes_for(out_bits(info, transform) * info.width as nat)
}

/// The rows of an image can be held.
pub open spec fn rows_fit(info: InfoModel, transform: Transformations) -> bool {
    &&& info.raw_row_length() <= usize::MAX
    &&& out_length(info, transform) <= usize::MAX
}

/// The reader once the meta data is known.
pub open spec fn prepared(r: ReaderModel, info: InfoModel) -> ReaderModel {
    ReaderModel {
        bpp: info.bytes_per_pixel(),
        rowlen: info.raw_row_length(),
        prev: zeros(info.raw_row_length()),
        processed: zeros(out_length(info, r.transform)),
        ..r
    }
}

/// The meta data has been read through to the image data.
pub open spec fn info_known(r: ReaderModel) -> bool {
    r.rowlen > 0
}

/// There is no meta data left to be read before the image data: the image data or the end of the
/// image has been come to, whether or not the decoder is past it, or decoding has failed.
pub open spec fn meta_over(d: DecoderModel) -> bool {
    d.meta_read || d.phase is Failed
}

/// The blocks that are left of the meta data, up to the first of the image data.
pub open spec fn meta_scan(d: DecoderModel, pending: Seq<u8>) -> Scan {
    if meta_over(d) {
        Scan { d, pending, answer: StageAnswer::Ready }
    } else {
        scan(d, pending)
    }
}

/// Reading the meta data: the reader after it, and how it ends.
pub open spec fn read_meta(r: ReaderModel) -> (ReaderModel, StageAnswer) {
    if info_known(r) {
        (r, StageAnswer::Ready)
    } else {
        let found = meta_scan(r.d, r.pending);
        let moved = ReaderModel { d: found.d, pending: found.pending, ..r };
        match found.answer {
            StageAnswer::NeedInput => (moved, StageAnswer::NeedInput),
            StageAnswer::Failed(error) => (moved, StageAnswer::Failed(error)),
            StageAnswer::Ready => match found.d.info {
                None => (moved, StageAnswer::Failed(header_missing())),
                Some(info) => if rows_fit(info, r.transform) {
                    (prepared(moved, info), StageAnswer::Ready)
                } else {
                    (
                        moved,
                        StageAnswer::Failed(ErrorModel::Unsupported(Unsupported::RowLength)),
                    )
                },
            },
        }
    }
}

/// How reading a row ends, or that it has not ended yet.
#[verifier::ext_equal]
pub enum RowAnswer {
    Again,
    NeedInput,
    End,
    Row,
    Failed(ErrorModel),
}

/// What more bytes make of the current row: the row before, the current row, and how it ends. A row
/// that is complete is freed of its filter and becomes the row before. Where the length of a row
/// was never learned, no row is complete.
pub open spec fn rows_grown(
    prev: Seq<u8>,
    current: Seq<u8>,
    data: Seq<u8>,
    bpp: nat,
    rowlen: nat,
) -> (Seq<u8>, Seq<u8>, RowAnswer) {
    let raw = current + data;
    if rowlen > 0 && raw.len() == rowlen {
        match filter_type_of(raw[0]) {
            Some(filter) => (
                seq![raw[0]] + unfiltered(filter, bpp as int, prev.skip(1), raw.skip(1)),
                Seq::empty(),
                RowAnswer::Row,
            ),
            None => (
                prev,
                raw,
                RowAnswer::Failed(
                    ErrorModel::Format(numbered_spec("invalid filter method ("@, raw[0])),
                ),
            ),
        }
    } else {
        (prev, raw, RowAnswer::Again)
    }
}

/// The reader with more bytes of the current row.
pub open spec fn row_grown(r: ReaderModel, data: Seq<u8>) -> (ReaderModel, RowAnswer) {
    let (prev, current, answer) = rows_grown(r.prev, r.current, data, r.bpp, r.rowlen);
    (ReaderModel { prev, current, ..r }, answer)
}

/// What the next decoded block does for the current row.
pub open spec fn row_step(r: ReaderModel) -> (ReaderModel, RowAnswer) {
    let block = next_block(r.d, r.pending);
    let moved = ReaderModel { d: block.d, pending: block.pending, ..r };
    match block.answer {
        BlockAnswer::NeedInput => (moved, RowAnswer::NeedInput),
        BlockAnswer::Failed(error) => (moved, RowAnswer::Failed(error)),
        BlockAnswer::End => (moved, RowAnswer::End),
        BlockAnswer::Block(DecodedModel::ImageData(data)) => row_grown(moved, data),
        BlockAnswer::Block(_) => (moved, RowAnswer::Again),
    }
}

/// The reader after a number of blocks.
pub open spec fn after_blocks(r: ReaderModel, blocks: nat) -> ReaderModel
    decreases blocks,
{
    if blocks == 0 {
        r
    } else {
        row_step(after_blocks(r, (blocks - 1) as nat)).0
    }
}

/// After this number of blocks, and not before, the next one ends the reading of a row.
pub open spec fn ends_after(r: ReaderModel, blocks: nat) -> bool {
    &&& forall|earlier: nat|
        earlier < blocks ==> row_step(#[trigger] after_blocks(r, earlier)).1 is Again
    &&& row_step(after_blocks(r, blocks)).1 !is Again
}

/// The reading of a row ends: it asks for input, or comes to the end of a row, to the end of the
/// image or to an error.
pub open spec fn row_ends(r: ReaderModel) -> bool {
    exists|blocks: nat| ends_after(r, blocks)
}

/// There is at most one number of blocks after which the reading of a row ends.
pub proof fn lemma_ends_once(r: ReaderModel, blocks: nat)
    requires
        ends_after(r, blocks),
    ensures
        read_row(r) == row_step(after_blocks(r, blocks)),
{
    let chosen = choose|blocks: nat| ends_after(r, blocks);
    assert(ends_after(r, chosen));
    if chosen < blocks {
        assert(row_step(after_blocks(r, chosen)).1 is Again);
    } else if blocks < chosen {
        assert(row_step(after_blocks(r, blocks)).1 is Again);
    }
}

/// Reading a row, once the meta data is known: the reader after it, and how it ends.
pub open spec fn read_row(r: ReaderModel) -> (ReaderModel, RowAnswer) {
    row_step(after_blocks(r, choose|blocks: nat| ends_after(r, blocks)))
}

/// The reader that begins to read a raw row, once the meta data is known.
pub open spec fn raw_begun(r: ReaderModel) -> ReaderModel {
    ReaderModel { pixels: None, ..read_meta(r).0 }
}

/// Reading a row and the meta data before it.
pub open spec fn read_raw_row(r: ReaderModel) -> (ReaderModel, RowAnswer) {
    match read_meta(r) {
        (after, StageAnswer::Ready) => read_row(raw_begun(r)),
        (after, StageAnswer::NeedInput) => (after, RowAnswer::NeedInput),
        (after, StageAnswer::Failed(error)) => (after, RowAnswer::Failed(error)),
    }
}

/// `buf` with its first bytes replaced by `row`, as far as there is room.
pub open spec fn overwritten(buf: Seq<u8>, row: Seq<u8>) -> Seq<u8> {
    Seq::new(
        buf.len(),
        |i: int|
            if i < row.len() {
                row[i]
            } else {
                buf[i]
            },
    )
}

/// The factor that takes the largest sample of a bit depth to 255.
pub open spec fn gray_scale(bit_depth: u8) -> int {
    if bit_depth == 1 {
        255
    } else if bit_depth == 2 {
        85
    } else if bit_depth == 4 {
        17
    } else {
        1
    }
}

/// `buf` with its gray samples spread out, a byte each; with a transparent sample given, scaled
/// and each followed by its opacity.
pub open spec fn gray_expanded(buf: Seq<u8>, bit_depth: u8, trns: Option<Seq<u8>>) -> Seq<u8> {
    match trns {
        None => Seq::new(buf.len(), |p: int| sample(buf, bit_depth, p)),
        Some(trns) => Seq::new(
            buf.len(),
            |p: int|
                if p >= room_for(buf, 2) * 2 {
                    buf[p]
                } else if p % 2 == 0 {
                    (sample(buf, bit_depth, p / 2) * gray_scale(bit_depth)) as u8
                } else if sample(buf, bit_depth, p / 2) == trns[1] {
                    0
                } else {
                    0xFF
                },
        ),
    }
}

/// The opacity of a palette entry.
pub open spec fn opacity(trns: Seq<u8>, index: int) -> u8 {
    if index < trns.len() {
        trns[index]
    } else {
        0xFF
    }
}

/// The number of bytes that an expanded palette index takes.
pub open spec fn palette_channels(trns: Option<Seq<u8>>) -> int {
    if trns is Some {
        4
    } else {
        3
    }
}

/// `buf` with its palette indices spread out and replaced by the colors they stand for, each
/// followed by its opacity where there is transparency.
pub open spec fn palette_expanded(
    buf: Seq<u8>,
    bit_depth: u8,
    palette: Seq<u8>,
    trns: Option<Seq<u8>>,
) -> Seq<u8> {
    let channels = palette_channels(trns);
    Seq::new(
        buf.len(),
        |p: int|
            if p >= room_for(buf, channels) * channels {
                buf[p]
            } else if p % channels == 3 {
                opacity(trns->0, sample(buf, bit_depth, p / channels) as int)
            } else {
                palette[3 * sample(buf, bit_depth, p / channels) + p % channels]
            },
    )
}

/// The first of the samples from position `from` on, before position `to`, that is not below
/// `limit`.
pub open spec fn first_beyond(
    buf: Seq<u8>,
    bit_depth: u8,
    from: int,
    to: int,
    limit: int,
) -> Option<u8>
    decreases to - from,
{
    if from >= to {
        None
    } else if sample(buf, bit_depth, from) >= limit {
        Some(sample(buf, bit_depth, from))
    } else {
        first_beyond(buf, bit_depth, from + 1, to, limit)
    }
}

/// What expanding gray samples gives.
pub open spec fn expand_gray(buf: Seq<u8>, info: InfoModel) -> Result<Seq<u8>, Unsupported> {
    if !packs(info.bit_depth) {
        Err(Unsupported::SampleDepth(info.bit_depth))
    } else if info.trns is Some && info.trns->0.len() < 2 {
        Err(Unsupported::TransparencyLength)
    } else {
        Ok(gray_expanded(buf, info.bit_depth, info.trns))
    }
}

/// What expanding palette indices gives.
pub open spec fn expand_indexed(buf: Seq<u8>, info: InfoModel) -> Result<Seq<u8>, Unsupported> {
    match info.palette {
        None => Err(Unsupported::MissingPalette),
        Some(palette) => if !packs(info.bit_depth) {
            Err(Unsupported::SampleDepth(info.bit_depth))
        } else {
            let pixels = room_for(buf, palette_channels(info.trns));
            match first_beyond(buf, info.bit_depth, 0, pixels, palette.len() as int / 3) {
                Some(index) => Err(Unsupported::PaletteIndex(index)),
                None => Ok(palette_expanded(buf, info.bit_depth, palette, info.trns)),
            }
        },
    }
}

/// What a row of this color type and bit depth is made into, where rows are to be expanded.
pub open spec fn expand(
    buf: Seq<u8>,
    color_type: ColorType,
    bit_depth: u8,
    info: InfoModel,
) -> Result<Seq<u8>, Unsupported> {
    match color_type {
        ColorType::Indexed => expand_indexed(buf, info),
        ColorType::Grayscale | ColorType::GrayscaleAlpha => if bit_depth < 8 {
            expand_gray(buf, info)
        } else {
            Ok(buf)
        },
        ColorType::RGB | ColorType::RGBA => Ok(buf),
    }
}

/// The processed row that a raw row is made into, in the place of `buf`.
pub open spec fn processed_row(
    buf: Seq<u8>,
    row: Seq<u8>,
    color_type: ColorType,
    bit_depth: u8,
    info: InfoModel,
    transform: Transformations,
) -> Result<Seq<u8>, Unsupported> {
    if transform.expands() {
        expand(overwritten(buf, row), color_type, bit_depth, info)
    } else {
        Ok(overwritten(buf, row))
    }
}

/// Making a processed row, of these pixels, of a row that was just read: the reader after it, and
/// how it ends.
pub open spec fn process(r: ReaderModel, pixels: (ColorType, u8)) -> (ReaderModel, RowAnswer) {
    let row = r.prev.skip(1);
    match processed_row(r.processed, row, pixels.0, pixels.1, r.d.info->0, r.transform) {
        Ok(made) => (ReaderModel { processed: made, ..r }, RowAnswer::Row),
        Err(what) => (
            ReaderModel { processed: overwritten(r.processed, row), ..r },
            RowAnswer::Failed(ErrorModel::Unsupported(what)),
        ),
    }
}

/// What the reading of a row comes to once the row is processed. The pixels that it was begun with
/// are kept for as long as it needs input.
pub open spec fn row_made(row: ReaderModel, answer: RowAnswer, pixels: (ColorType, u8)) -> (
    ReaderModel,
    RowAnswer,
) {
    let done = ReaderModel { pixels: None, ..row };
    match answer {
        RowAnswer::NeedInput => (row, answer),
        RowAnswer::Row => process(done, pixels),
        _ => (done, answer),
    }
}

/// The pixels that a row is begun with, or was begun with where it is being read already.
pub open spec fn row_pixels(r: ReaderModel) -> (ColorType, u8) {
    match r.pixels {
        Some(pixels) => pixels,
        None => (r.d.info->0.color_type, r.d.info->0.bit_depth),
    }
}

/// The reader that begins to read a row that is to be processed, or goes on with one, once the meta
/// data is known.
pub open spec fn row_begun(r: ReaderModel) -> ReaderModel {
    if r.transform.is_identity_spec() {
        raw_begun(r)
    } else {
        ReaderModel { pixels: Some(row_pixels(read_meta(r).0)), ..read_meta(r).0 }
    }
}

/// Reading a row, and the meta data before it, and processing the row. Where rows are handed out as
/// they are, there is nothing to process.
pub open spec fn read_processed_row(r: ReaderModel) -> (ReaderModel, RowAnswer) {
    if r.transform.is_identity_spec() {
        read_raw_row(r)
    } else {
        match read_meta(r) {
            (after, StageAnswer::NeedInput) => (after, RowAnswer::NeedInput),
            (after, StageAnswer::Failed(error)) => (after, RowAnswer::Failed(error)),
            (after, StageAnswer::Ready) => {
                let (row, answer) = read_row(row_begun(r));
                row_made(row, answer, row_pixels(after))
            },
        }
    }
}

/// The color type and the bit depth of the rows that are handed out. Where rows are expanded, gray
/// samples and palette indices come to eight bits a sample; colors stay as they are, unless an
/// opacity is added to them.
pub open spec fn out_type(info: InfoModel, transform: Transformations) -> (ColorType, u8) {
    let trns = info.trns is Some;
    if transform.is_identity_spec() || !transform.expands() {
        (info.color_type, info.bit_depth)
    } else {
        match info.color_type {
            ColorType::Grayscale => if trns {
                (ColorType::GrayscaleAlpha, 8)
            } else {
                (ColorType::Grayscale, 8)
            },
            ColorType::GrayscaleAlpha => (ColorType::GrayscaleAlpha, 8),
            ColorType::Indexed => if trns {
                (ColorType::RGBA, 8)
            } else {
                (ColorType::RGB, 8)
            },
            ColorType::RGB => if trns {
                (ColorType::RGBA, 8)
            } else {
                (ColorType::RGB, info.bit_depth)
            },
            ColorType::RGBA => (ColorType::RGBA, info.bit_depth),
        }
    }
}

/// A reader at the start of a file.
pub open spec fn fresh_reader(transform: Transformations) -> ReaderModel {
    ReaderModel {
        d: fresh(),
        pending: Seq::empty(),
        bpp: 0,
        rowlen: 0,
        prev: Seq::empty(),
        current: Seq::empty(),
        transform,
        processed: Seq::empty(),
        pixels: None,
    }
}

/// The reader after input that it waited for could not be read: the next row is begun anew, with
/// what has been read of it.
pub open spec fn gave_up(r: ReaderModel) -> ReaderModel {
    ReaderModel { pixels: None, ..r }
}

} // verus!
