//! Laws of the file format: what the numbers, the chunks and the texts stand for.
use crate::chunk::{idat, iend, ihdr, plte, trns};
use crate::crc::crc32;
use crate::decoder_laws::{
    be_bytes, chunk_bytes, lemma_chunk_begins, lemma_four_check_bytes, lemma_palette_chunk,
    lemma_transparency_chunk, unused,
};
use crate::error::{decimal, numbered_spec, ErrorModel, ReadError, Unsupported};
use crate::inflater::{inflate_meaning, inflate_reply};
use crate::model::{
    be32, decoder_sound, header, row_lacks, row_room, signature, tick, updated, DecodedModel,
    DecoderModel, Phase,
};
use crate::types::{color_type_of, ColorType, InfoModel};
use vstd::prelude::*;

verus! {

/// The bytes are the letters of a text.
pub open spec fn spells(bytes: Seq<u8>, text: Seq<char>) -> bool {
    &&& bytes.len() == text.len()
    &&& forall|i: int| 0 <= i < text.len() ==> #[trigger] bytes[i] as char == text[i]
}

/// The types of the chunks are the letters of their names. The signature is a byte above all
/// letters, the name of the format, both ends of a line with the end of a text before the second.
pub proof fn lemma_names_are_spelled()
    ensures
        spells(ihdr(), "IHDR"@),
        spells(plte(), "PLTE"@),
        spells(trns(), "tRNS"@),
        spells(idat(), "IDAT"@),
        spells(iend(), "IEND"@),
        signature().len() == 8,
        signature()[0] == 0x89,
        spells(signature().subrange(1, 4), "PNG"@),
        spells(signature().subrange(4, 6), "\r\n"@),
        signature()[6] == 0x1A,
        spells(signature().subrange(7, 8), "\n"@),
{
    reveal_strlit("IHDR");
    reveal_strlit("PLTE");
    reveal_strlit("tRNS");
    reveal_strlit("IDAT");
    reveal_strlit("IEND");
    reveal_strlit("PNG");
    reveal_strlit("\r\n");
    reveal_strlit("\n");
}

/// The pixels are palette indices.
pub open spec fn has_palette(color_type: ColorType) -> bool {
    color_type == ColorType::Indexed
}

/// The pixels stand for colors, and not for gray alone.
pub open spec fn has_color(color_type: ColorType) -> bool {
    color_type == ColorType::RGB || color_type == ColorType::RGBA || color_type
        == ColorType::Indexed
}

/// The pixels have an opacity of their own.
pub open spec fn has_alpha(color_type: ColorType) -> bool {
    color_type == ColorType::GrayscaleAlpha || color_type == ColorType::RGBA
}

/// A flag as a number.
pub open spec fn flag(set: bool) -> int {
    if set {
        1
    } else {
        0
    }
}

/// The byte of a color type adds up what its pixels have: 1 for a palette, 2 for color, 4 for an
/// opacity. It stands for that color type and for no other.
pub proof fn lemma_color_type_code(color_type: ColorType)
    ensures
        color_type.code_spec() == flag(has_palette(color_type)) + 2 * flag(has_color(color_type))
            + 4 * flag(has_alpha(color_type)),
        color_type_of(color_type.code_spec()) == Some(color_type),
{
}

/// A byte that stands for a color type is the byte of that color type.
pub proof fn lemma_color_type_of_code(code: u8)
    ensures
        color_type_of(code) matches Some(color_type) ==> color_type.code_spec() == code,
{
}

/// A pixel has one sample for gray or a palette index, three for color, and one more for an
/// opacity.
pub proof fn lemma_samples_of_pixel(color_type: ColorType)
    ensures
        has_palette(color_type) ==> color_type.samples_spec() == 1,
        !has_palette(color_type) ==> color_type.samples_spec() == 1 + 2 * flag(
            has_color(color_type),
        ) + flag(has_alpha(color_type)),
{
}

/// The distance at which bytes of a row belong together is that of a whole pixel. A pixel of
/// samples of whole bytes takes exactly so many bytes; of smaller samples, each counts as a byte.
pub proof fn lemma_pixel_size(info: InfoModel)
    ensures
        info.bits_per_pixel() == info.color_type.samples_spec() * info.bit_depth as nat,
        info.bit_depth == 8 || info.bit_depth == 16 ==> 8 * info.bytes_per_pixel()
            == info.bits_per_pixel(),
        1 <= info.bit_depth <= 8 ==> info.bytes_per_pixel() == info.color_type.samples_spec(),
{
    let samples = info.color_type.samples_spec();
    assert(8 * (samples * 1) == samples * 8 && 8 * (samples * 2) == samples * 16 && samples * 1
        == samples) by (nonlinear_arith);
}

/// A row is the byte that names the filter, and as few bytes as hold its pixels.
pub proof fn lemma_row_length(info: InfoModel)
    ensures
        ({
            let bits = info.color_type.samples_spec() * info.bit_depth as nat * info.width as nat;
            let bytes = info.raw_row_length() - 1;
            &&& 0 <= bytes
            &&& 8 * bytes >= bits
            &&& bytes > 0 ==> 8 * (bytes - 1) < bits
        }),
{
    let bits = info.bits_per_pixel();
    assert(info.width as nat * bits == bits * info.width as nat) by (nonlinear_arith);
}

/// An image is as many rows as it is high: none has no bytes, and a row more adds those of a row.
pub proof fn lemma_image_size(info: InfoModel, higher: InfoModel)
    requires
        higher.height == info.height + 1,
        higher == (InfoModel { height: higher.height, ..info }),
    ensures
        info.height == 0 ==> info.raw_bytes() == 0,
        higher.raw_bytes() == info.raw_bytes() + info.raw_row_length(),
{
    let length = info.raw_row_length();
    let height = info.height as nat;
    assert((height + 1) * length == height * length + length && 0 * length == 0)
        by (nonlinear_arith);
}

/// Four bytes are a number to the base 256.
pub proof fn lemma_number_value(bytes: Seq<u8>)
    requires
        bytes.len() == 4,
    ensures
        be32(bytes) == ((bytes[0] as int * 256 + bytes[1]) * 256 + bytes[2]) * 256 + bytes[3],
        be_bytes(be32(bytes)) == bytes,
{
    let n = be32(bytes) as int;
    let (a, b, c, d) = (bytes[0] as int, bytes[1] as int, bytes[2] as int, bytes[3] as int);
    assert(n == a * 0x100_0000 + b * 0x1_0000 + c * 0x100 + d);
    assert(n / 0x100_0000 == a);
    assert(n / 0x1_0000 == a * 0x100 + b);
    assert(n / 0x100 == a * 0x1_0000 + b * 0x100 + c);
    assert(be_bytes(be32(bytes)) =~= bytes);
}

/// The bytes of a header that say something this decoder can make use of: there are enough of them,
/// the bit depth is a power of two up to 16, the color type is one of five, the methods are the
/// only ones there are.
pub open spec fn header_valid(data: Seq<u8>) -> bool {
    &&& data.len() >= 13
    &&& data[8] >= 1 && 16int % (data[8] as int) == 0
    &&& data[9] <= 6 && data[9] != 1 && data[9] != 5
    &&& data[10] == 0
    &&& data[11] == 0
    &&& data[12] <= 1
}

/// A header is accepted exactly where its bytes are valid, and then says what they say.
pub proof fn lemma_header_accepted(data: Seq<u8>)
    ensures
        header(data) is Ok <==> header_valid(data),
        header(data) matches Ok(info) ==> {
            &&& info.width == ((data[0] as int * 256 + data[1]) * 256 + data[2]) * 256 + data[3]
            &&& info.height == ((data[4] as int * 256 + data[5]) * 256 + data[6]) * 256 + data[7]
            &&& info.bit_depth == data[8]
            &&& info.color_type.code_spec() == data[9]
            &&& info.interlaced <==> data[12] == 1
            &&& info.trns is None
            &&& info.palette is None
        },
{
    if data.len() >= 9 {
        let depth = data[8] as int;
        lemma_power_of_two(depth);
    }
    if data.len() >= 8 {
        lemma_number_value(data.take(4));
        lemma_number_value(data.subrange(4, 8));
    }
}

/// The powers of two up to 16 are the numbers that divide 16.
proof fn lemma_power_of_two(n: int)
    requires
        0 <= n <= 255,
    ensures
        (n >= 1 && 16int % n == 0) <==> (n == 1 || n == 2 || n == 4 || n == 8 || n == 16),
{
    if n > 16 {
        assert(16int % n == 16) by (nonlinear_arith)
            requires
                n > 16,
        ;
    } else if n >= 1 {
        assert(16int % 1 == 0 && 16int % 2 == 0 && 16int % 3 == 1 && 16int % 4 == 0 && 16int % 5
            == 1 && 16int % 6 == 4 && 16int % 7 == 2 && 16int % 8 == 0 && 16int % 9 == 7 && 16int
            % 10 == 6 && 16int % 11 == 5 && 16int % 12 == 4 && 16int % 13 == 3 && 16int % 14 == 2
            && 16int % 15 == 1 && 16int % 16 == 0);
    }
}

/// Why a header is refused: the first field that is missing or wrong decides, and the text names it
/// with its value.
pub proof fn lemma_header_refused(data: Seq<u8>)
    requires
        !header_valid(data),
    ensures
        header(data) matches Err(error) && {
            let depth_valid = data[8] >= 1 && 16int % (data[8] as int) == 0;
            let color_valid = data[9] <= 6 && data[9] != 1 && data[9] != 5;
            let missing = ErrorModel::IoError(ReadError::UnexpectedEof);
            &&& data.len() < 9 ==> error == missing
            &&& data.len() >= 9 && !depth_valid ==> is_numbered(
                error,
                "invalid bit depth ("@,
                data[8],
            )
            &&& data.len() >= 9 && depth_valid ==> {
                &&& data.len() == 9 ==> error == missing
                &&& data.len() >= 10 && !color_valid ==> is_numbered(
                    error,
                    "invalid color type ("@,
                    data[9],
                )
                &&& data.len() >= 10 && color_valid ==> {
                    &&& data.len() == 10 ==> error == missing
                    &&& data.len() >= 11 && data[10] != 0 ==> is_numbered(
                        error,
                        "unknown compression method ("@,
                        data[10],
                    )
                    &&& data.len() >= 11 && data[10] == 0 ==> {
                        &&& data.len() == 11 ==> error == missing
                        &&& data.len() >= 12 && data[11] != 0 ==> is_numbered(
                            error,
                            "unknown filter method ("@,
                            data[11],
                        )
                        &&& data.len() >= 12 && data[11] == 0 ==> {
                            &&& data.len() == 12 ==> error == missing
                            &&& data.len() >= 13 ==> is_numbered(
                                error,
                                "unknown interlace method ("@,
                                data[12],
                            )
                        }
                    }
                }
            }
        },
{
    if data.len() >= 9 {
        lemma_power_of_two(data[8] as int);
        lemma_numbered("invalid bit depth ("@, data[8]);
    }
    if data.len() >= 10 {
        lemma_numbered("invalid color type ("@, data[9]);
    }
    if data.len() >= 11 {
        lemma_numbered("unknown compression method ("@, data[10]);
    }
    if data.len() >= 12 {
        lemma_numbered("unknown filter method ("@, data[11]);
    }
    if data.len() >= 13 {
        lemma_numbered("unknown interlace method ("@, data[12]);
    }
}

/// The number that decimal digits stand for.
pub open spec fn digits_value(digits: Seq<char>) -> int
    decreases digits.len(),
{
    if digits.len() == 0 {
        0
    } else {
        10 * digits_value(digits.drop_last()) + (digits.last() as int - 48)
    }
}

/// The text is a number as it is written: digits, with no zero in front of others.
pub open spec fn is_number(digits: Seq<char>, n: nat) -> bool {
    &&& digits.len() >= 1
    &&& forall|i: int| 0 <= i < digits.len() ==> 48 <= #[trigger] digits[i] as int <= 57
    &&& digits.len() > 1 ==> digits[0] as int > 48
    &&& digits_value(digits) == n
}

/// The error is a text that starts with `prefix` and ends with the number `n` in brackets.
pub open spec fn is_numbered(error: ErrorModel, prefix: Seq<char>, n: u8) -> bool {
    error matches ErrorModel::Format(text) && {
        let end = text.len() - 1;
        &&& prefix.len() < end
        &&& text.take(prefix.len() as int) == prefix
        &&& is_number(text.subrange(prefix.len() as int, end), n as nat)
        &&& text[end] as int == 41
    }
}

/// A number is written by its decimal digits.
pub proof fn lemma_decimal(n: nat)
    ensures
        is_number(decimal(n), n),
        n > 0 ==> decimal(n)[0] as int > 48,
    decreases n,
{
    let text = decimal(n);
    if n >= 10 {
        lemma_decimal(n / 10);
        let front = decimal(n / 10);
        assert(text.drop_last() =~= front);
        assert forall|i: int| 0 <= i < text.len() implies 48 <= #[trigger] text[i] as int <= 57 by {
            if i < front.len() {
                assert(text[i] == front[i]);
            }
        }
        assert(text[0] == front[0]);
        assert(text.last() as int == 48 + n % 10);
    } else {
        assert(text.drop_last() =~= Seq::<char>::empty());
        assert(digits_value(text.drop_last()) == 0);
        assert(text.last() as int == 48 + n);
    }
}

/// What a text with a number in brackets is.
pub proof fn lemma_numbered(prefix: Seq<char>, n: u8)
    ensures
        is_numbered(ErrorModel::Format(numbered_spec(prefix, n)), prefix, n),
{
    let text = numbered_spec(prefix, n);
    reveal_strlit(")");
    lemma_decimal(n as nat);
    let end = text.len() - 1;
    assert(text.take(prefix.len() as int) =~= prefix);
    assert(text.subrange(prefix.len() as int, end) =~= decimal(n as nat));
    assert(text[end] == ")"@[0]);
}

/// A text that describes an error depends on nothing but what kind of error it is, where the error
/// does not bring a text of its own: that one is the description.
pub proof fn lemma_descriptions(text: Seq<char>, a: ErrorModel, b: ErrorModel)
    ensures
        ErrorModel::Format(text).description() == text,
        a is CrcMismatch && b is CrcMismatch ==> a.description() == b.description(),
        a is Unsupported && b is Unsupported ==> a.description() == b.description(),
        a is CrcMismatch ==> a.description() == "CRC error"@,
        a is InvalidSignature ==> a.description() == "invalid signature"@,
        a is CorruptFlateStream ==> a.description() == "compressed data stream corrupted"@,
        a is IoError ==> a.description() == "unexpected end of file"@,
        a is Unsupported ==> a.description() == "not implemented"@,
{
}

/// A chunk begins with nothing but its type under its check, with all of its data to come, and with
/// none of it held. What is known of the image, and the decompressor, are left alone. With the
/// first chunk of image data behind the header, the meta data is read.
pub proof fn lemma_chunk_begin(
    d: DecoderModel,
    kind: Seq<u8>,
    data: Seq<u8>,
    stored: u32,
    rest: Seq<u8>,
)
    requires
        d.phase == (Phase::Length { seen: Seq::empty() }),
        kind.len() == 4,
        data.len() <= u32::MAX,
    ensures
        ({
            let after = updated(d, chunk_bytes(kind, data, stored) + rest).after;
            &&& after.phase == (Phase::Read {
                kind,
                covered: kind,
                left: data.len(),
                data: Seq::empty(),
            })
            &&& after.info == d.info
            &&& after.calls == d.calls
            &&& after.row_left == d.row_left
            &&& after.meta_read <==> d.meta_read || (kind == idat() && d.info is Some)
        }),
{
    lemma_chunk_begins(d, kind, data, stored, rest);
}

/// Inside the data of a chunk: its type, what its check covers so far, and how much of the data is
/// to come.
pub open spec fn in_chunk(d: DecoderModel) -> Option<(Seq<u8>, Seq<u8>, nat)> {
    match d.phase {
        Phase::Read { kind, covered, left, .. } => Some((kind, covered, left)),
        Phase::Full { kind, covered, left, .. } => Some((kind, covered, left)),
        Phase::Inflate { kind, covered, left, .. } => Some((kind, covered, left)),
        _ => None,
    }
}

/// The check of a chunk covers each byte of its data, once and in order, whatever the chunk is: a
/// byte that is taken is covered, no other step changes what is covered, and the check is read only
/// when no data is to come. What is known of the image changes only where a header, palette or
/// transparency chunk with data in it has been read to its end.
pub proof fn lemma_chunk_is_covered(d: DecoderModel, byte: u8)
    requires
        in_chunk(d) is Some,
        tick(d, byte).outcome is Ok,
    ensures
        ({
            let (kind, covered, left) = in_chunk(d)->0;
            let step = tick(d, byte);
            match in_chunk(step.next) {
                Some((same_kind, now_covered, now_left)) => {
                    &&& same_kind == kind
                    &&& step.took ==> now_covered == covered.push(byte) && now_left + 1 == left
                    &&& !step.took ==> now_covered == covered && now_left == left
                },
                None => {
                    &&& step.next.phase == (Phase::Check { kind, covered, seen: Seq::empty() })
                    &&& left == 0
                    &&& !step.took
                },
            }
        }),
        ({
            let (kind, _, left) = in_chunk(d)->0;
            let used = kind == ihdr() || kind == plte() || kind == trns();
            d.phase is Full && left == 0 && used || tick(d, byte).next.info == d.info
        }),
{
}

/// The four bytes behind the data of a chunk decide, whatever the chunk is: it is complete where
/// they are the CRC-32 of what is covered, and decoding fails otherwise.
pub proof fn lemma_check_decides(d: DecoderModel, kind: Seq<u8>, covered: Seq<u8>, buf: Seq<u8>)
    requires
        d.phase == (Phase::Check { kind, covered, seen: Seq::empty() }),
        buf.len() >= 4,
    ensures
        ({
            let stored = be32(buf.take(4));
            let update = updated(d, buf);
            if stored == crc32(covered) {
                &&& update.outcome == Ok::<(nat, DecodedModel), ErrorModel>(
                    (
                        4,
                        if kind == iend() {
                            DecodedModel::ImageEnd
                        } else {
                            DecodedModel::ChunkComplete(stored, kind)
                        },
                    ),
                )
                &&& update.after.phase == (Phase::Length { seen: Seq::empty() })
                &&& update.after.info == d.info
                &&& update.after.calls == d.calls
                &&& update.after.row_left == d.row_left
                &&& update.after.meta_read <==> d.meta_read || (kind == iend() && d.info is Some)
            } else {
                &&& update.outcome == Err::<(nat, DecodedModel), ErrorModel>(
                    ErrorModel::CrcMismatch {
                        recover: 1,
                        crc_val: stored,
                        crc_sum: crc32(covered),
                        chunk: kind,
                    },
                )
                &&& update.after.phase is Failed
            }
        }),
{
    lemma_four_check_bytes(d, kind, covered, buf);
}

/// A palette chunk behind the header: the palette is then the data of the chunk, all of it, and
/// nothing else that is known of the image changes.
pub proof fn lemma_palette_is_kept(
    d: DecoderModel,
    info: InfoModel,
    data: Seq<u8>,
    rest: Seq<u8>,
)
    requires
        d.phase == (Phase::Length { seen: Seq::empty() }),
        d.info == Some(info),
        1 <= data.len() <= 10240,
    ensures
        ({
            let stored = crc32(plte() + data);
            let whole = chunk_bytes(plte(), data, stored) + rest;
            let second = updated(updated(d, whole).after, whole.skip(8));
            &&& second.outcome == Ok::<(nat, DecodedModel), ErrorModel>(
                (data.len() + 4, DecodedModel::ChunkComplete(stored, plte())),
            )
            &&& second.after.info matches Some(after) && {
                &&& after.palette == Some(data)
                &&& after == (InfoModel { palette: after.palette, ..info })
            }
            &&& second.after == (DecoderModel { info: second.after.info, ..d })
        }),
{
    lemma_palette_chunk(d, data, crc32(plte() + data), rest);
    assert(plte()[0] == 80 && iend()[0] == 73);
}

/// A palette chunk without a header before it is passed over.
pub proof fn lemma_palette_without_header(d: DecoderModel, data: Seq<u8>, rest: Seq<u8>)
    requires
        d.phase == (Phase::Length { seen: Seq::empty() }),
        d.info is None,
        1 <= data.len() <= 10240,
    ensures
        ({
            let stored = crc32(plte() + data);
            let whole = chunk_bytes(plte(), data, stored) + rest;
            let second = updated(updated(d, whole).after, whole.skip(8));
            &&& second.outcome == Ok::<(nat, DecodedModel), ErrorModel>(
                (data.len() + 4, DecodedModel::ChunkComplete(stored, plte())),
            )
            &&& second.after == d
        }),
{
    lemma_palette_chunk(d, data, crc32(plte() + data), rest);
    assert(plte()[0] == 80 && iend()[0] == 73);
}

/// A transparency chunk. In an image with a palette, the opacities are then the data of the chunk,
/// all of it, and nothing else that is known of the image changes. Everywhere else decoding fails,
/// for a reason of its own.
pub proof fn lemma_transparency_is_kept(d: DecoderModel, data: Seq<u8>, rest: Seq<u8>)
    requires
        d.phase == (Phase::Length { seen: Seq::empty() }),
        1 <= data.len() <= 10240,
    ensures
        ({
            let stored = crc32(trns() + data);
            let whole = chunk_bytes(trns(), data, stored) + rest;
            let second = updated(updated(d, whole).after, whole.skip(8));
            &&& d.info is None ==> second.outcome == Err::<(nat, DecodedModel), ErrorModel>(
                ErrorModel::Format("IHDR chunk missing"@),
            )
            &&& d.info matches Some(info) ==> {
                &&& info.color_type == ColorType::Indexed && info.palette is Some ==> {
                    &&& second.outcome == Ok::<(nat, DecodedModel), ErrorModel>(
                        (data.len() + 4, DecodedModel::ChunkComplete(stored, trns())),
                    )
                    &&& second.after.info matches Some(after) && {
                        &&& after.trns == Some(data)
                        &&& after == (InfoModel { trns: after.trns, ..info })
                    }
                    &&& second.after == (DecoderModel { info: second.after.info, ..d })
                }
                &&& info.color_type == ColorType::Indexed && info.palette is None
                    ==> second.outcome == Err::<(nat, DecodedModel), ErrorModel>(
                    ErrorModel::Format("tRNS chunk occured before PLTE chunk"@),
                )
                &&& has_alpha(info.color_type) ==> (second.outcome matches Err(error)
                    && is_numbered(
                    error,
                    "tRNS chunk found for color type ("@,
                    info.color_type.code_spec(),
                ))
                &&& info.color_type == ColorType::Grayscale || info.color_type == ColorType::RGB
                    ==> second.outcome == Err::<(nat, DecodedModel), ErrorModel>(
                    ErrorModel::Unsupported(Unsupported::Transparency(info.color_type)),
                )
            }
            &&& second.outcome is Err ==> second.after.phase is Failed
        }),
{
    lemma_transparency_chunk(d, data, crc32(trns() + data), rest);
    assert(trns()[0] == 116 && iend()[0] == 73);
    if let Some(info) = d.info {
        lemma_numbered("tRNS chunk found for color type ("@, info.color_type.code_spec());
    }
}

/// What the decompressor replies is passed on as it is. That the stream has ended is what the one
/// status says and no other; a status of its own for an error, or no headway with bytes to read, is
/// a corrupt stream.
pub proof fn lemma_reply_is_passed_on(reply: (i32, nat, Seq<u8>), given: nat)
    ensures
        inflate_meaning(reply, given) matches Some((ended, used, written)) ==> {
            &&& used == reply.1
            &&& written == reply.2
            &&& ended <==> reply.0 == 1
            &&& reply.0 == 1 || reply.0 == 0 || reply.0 == -5
        },
        reply.0 == 1 ==> inflate_meaning(reply, given) is Some,
        reply.0 == 0 ==> (inflate_meaning(reply, given) is None <==> given > 0 && reply.1 == 0
            && reply.2.len() == 0),
        reply.0 < 0 && given > 0 ==> inflate_meaning(reply, given) is None,
        reply.0 > 1 ==> inflate_meaning(reply, given) is None,
        reply.0 == -5 && given == 0 ==> inflate_meaning(reply, given) is Some,
{
}

/// How the decompression of what is held of a chunk goes on. It fails where the stream is corrupt,
/// and where the stream has ended and bytes are left over. Otherwise all that was written is
/// reported, and the current row lacks so much less; and what is held is done with only where none
/// of it is left over, and nothing more came out of it or more of the chunk follows. What is known
/// of the image stays as it is, and no byte of the file is taken.
pub proof fn lemma_decompression_goes_on(d: DecoderModel, byte: u8)
    requires
        decoder_sound(d),
        d.phase is Inflate,
        row_lacks(d) is Some,
    ensures
        ({
            let step = tick(d, byte);
            let room = row_room(row_lacks(d)->0);
            let given = unused(d);
            let corrupt = Err::<DecodedModel, ErrorModel>(ErrorModel::CorruptFlateStream);
            &&& step.next.calls == d.calls.push((given, room))
            &&& step.next.info == d.info && step.next.meta_read == d.meta_read && !step.took
            &&& match inflate_meaning(inflate_reply(d.calls, given, room), given.len()) {
                None => step.outcome == corrupt,
                Some((ended, used, written)) => used <= given.len() ==> {
                    &&& ended && used < given.len() ==> step.outcome == corrupt
                    &&& !ended || used == given.len() ==> {
                        &&& step.outcome == Ok::<DecodedModel, ErrorModel>(
                            DecodedModel::ImageData(written),
                        )
                        &&& step.next.phase is Read <==> used == given.len() && (written.len() == 0
                            || d.phase->Inflate_left > 0)
                        &&& step.next.phase is Read || step.next.phase is Inflate
                        &&& written.len() <= room ==> step.next.row_left + written.len()
                            == row_lacks(d)->0
                    }
                },
            }
        }),
{
}

/// Image data without a header before it is an error that says so.
pub proof fn lemma_image_data_without_header(d: DecoderModel, byte: u8)
    requires
        d.phase is Inflate,
        d.info is None,
        d.row_left == 0,
    ensures
        tick(d, byte).outcome == Err::<DecodedModel, ErrorModel>(
            ErrorModel::Format("IHDR chunk missing"@),
        ),
        tick(d, byte).next.phase is Failed,
{
}

/// The decompressor is asked for no more than the current row lacks, and for all of that where it
/// is no more than is handed out at a time. Something is asked for wherever something is lacking.
pub proof fn lemma_row_room(lacks: nat)
    ensures
        row_room(lacks) <= lacks,
        row_room(lacks) <= 30720,
        lacks <= 30720 ==> row_room(lacks) == lacks,
        lacks > 30720 ==> row_room(lacks) == 30720,
        lacks > 0 ==> row_room(lacks) > 0,
{
}

/// A row that lacks nothing makes way for a whole row of the image that is known.
pub proof fn lemma_next_row_is_whole(d: DecoderModel)
    ensures
        d.row_left > 0 ==> row_lacks(d) == Some(d.row_left),
        d.row_left == 0 && d.info is Some ==> row_lacks(d) == Some(d.info->0.raw_row_length()),
        d.row_left == 0 && d.info is None ==> row_lacks(d) is None,
{
}

} // verus!
