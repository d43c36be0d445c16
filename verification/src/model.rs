//! The decoder as a mathematical machine: what it holds, and what each byte does to it.
use crate::chunk::{idat, iend, ihdr, plte, trns};
use crate::crc::crc32;
use crate::error::{numbered_spec, ErrorModel, ReadError, Unsupported};
use crate::inflater::{after_inflate_spec, inflate_meaning, inflate_reply, AfterInflate};
use crate::types::{color_type_of, ColorType, InfoModel};
use vstd::prelude::*;

verus! {

/// The number of bytes of a chunk that are held at a time.
pub const CHUNCK_BUFFER_SIZE: usize = 10240;

/// The largest number of bytes of image data that are handed out at a time.
pub const IMAGE_BUFFER_SIZE: usize = 30720;

/// The bytes that a PNG file starts with.
pub open spec fn signature() -> Seq<u8> {
    seq![137u8, 80, 78, 71, 13, 10, 26, 10]
}

/// The number that four bytes stand for, the most significant byte first.
pub open spec fn be32(bytes: Seq<u8>) -> u32 {
    (bytes[0] * 0x100_0000 + bytes[1] * 0x1_0000 + bytes[2] * 0x100 + bytes[3]) as u32
}

/// Where the decoder stands in the file. `kind` is the type of the current chunk, `covered` the
/// bytes that its check covers so far, `left` the number of its data bytes still to be read, and
/// `data` those that are held.
#[verifier::ext_equal]
pub enum Phase {
    /// In the signature, after the bytes `seen`.
    Signature { seen: Seq<u8> },
    /// In the length of a chunk.
    Length { seen: Seq<u8> },
    /// In the type of a chunk of this length.
    Type { length: u32, seen: Seq<u8> },
    /// In the data of a chunk.
    Read { kind: Seq<u8>, covered: Seq<u8>, left: nat, data: Seq<u8> },
    /// Before what is held of a chunk is made use of.
    Full { kind: Seq<u8>, covered: Seq<u8>, left: nat, data: Seq<u8> },
    /// While what is held of a chunk is decompressed, from position `at` on.
    Inflate { kind: Seq<u8>, covered: Seq<u8>, left: nat, data: Seq<u8>, at: nat },
    /// In the check of a chunk.
    Check { kind: Seq<u8>, covered: Seq<u8>, seen: Seq<u8> },
    /// After an error.
    Failed,
}

/// What the decoder holds: where it stands, the calls that the decompressor has taken, the number
/// of bytes that the current row still lacks, what is known of the image, and whether the meta data
/// of an image that something is known of has been read through, to its image data or its end.
#[verifier::ext_equal]
pub struct DecoderModel {
    pub phase: Phase,
    pub calls: Seq<(Seq<u8>, nat)>,
    pub row_left: nat,
    pub info: Option<InfoModel>,
    pub meta_read: bool,
}

/// The mathematical content of a `Decoded`.
#[verifier::ext_equal]
pub enum DecodedModel {
    Nothing,
    Header(u32, u32, u8, ColorType, bool),
    ChunkBegin(u32, Seq<u8>),
    ChunkComplete(u32, Seq<u8>),
    ImageData(Seq<u8>),
    ImageEnd,
}

/// What one step of the decoder does: what it holds after it, whether it takes the byte, and what
/// it reports.
#[verifier::ext_equal]
pub struct Tick {
    pub next: DecoderModel,
    pub took: bool,
    pub outcome: Result<DecodedModel, ErrorModel>,
}

/// A decoder at the start of a file.
pub open spec fn fresh() -> DecoderModel {
    DecoderModel {
        phase: Phase::Signature { seen: Seq::empty() },
        calls: Seq::empty(),
        row_left: 0,
        info: None,
        meta_read: false,
    }
}

impl DecoderModel {
    /// The same decoder in another phase.
    pub open spec fn at(self, phase: Phase) -> DecoderModel {
        DecoderModel { phase, ..self }
    }
}

/// The decoder in front of the data of a chunk of this type and length.
pub open spec fn chunk_begun(d: DecoderModel, kind: Seq<u8>, length: nat) -> DecoderModel {
    DecoderModel {
        phase: Phase::Read { kind, covered: kind, left: length, data: Seq::empty() },
        meta_read: d.meta_read || (kind == idat() && d.info is Some),
        ..d
    }
}

/// The step that takes the byte and reports nothing.
pub open spec fn takes(next: DecoderModel) -> Tick {
    Tick { next, took: true, outcome: Ok(DecodedModel::Nothing) }
}

/// The step that leaves the byte and reports nothing.
pub open spec fn leaves(next: DecoderModel) -> Tick {
    Tick { next, took: false, outcome: Ok(DecodedModel::Nothing) }
}

/// The step that fails.
pub open spec fn fails(d: DecoderModel, error: ErrorModel) -> Tick {
    Tick { next: d.at(Phase::Failed), took: false, outcome: Err(error) }
}

/// The error for a chunk that has to come after the header and did not.
pub open spec fn header_missing() -> ErrorModel {
    ErrorModel::Format("IHDR chunk missing"@)
}

/// The error for data that ends too early.
pub open spec fn too_short() -> ErrorModel {
    ErrorModel::IoError(ReadError::UnexpectedEof)
}

/// The bit depths that an image can have.
pub open spec fn is_bit_depth(n: u8) -> bool {
    n == 1 || n == 2 || n == 4 || n == 8 || n == 16
}

/// What the chunks so far allow to be known of an image: a bit depth that images have, and
/// transparency for palette entries alone.
pub open spec fn info_sound(info: Option<InfoModel>) -> bool {
    info matches Some(info) ==> {
        &&& is_bit_depth(info.bit_depth)
        &&& info.trns is Some ==> info.color_type == ColorType::Indexed && info.palette is Some
    }
}

/// What the data of a header chunk says of the image. The fields are read from first to last, and
/// the first that is missing or wrong decides.
pub open spec fn header(data: Seq<u8>) -> Result<InfoModel, ErrorModel> {
    if data.len() < 9 {
        Err(too_short())
    } else if !is_bit_depth(data[8]) {
        Err(ErrorModel::Format(numbered_spec("invalid bit depth ("@, data[8])))
    } else if data.len() < 10 {
        Err(too_short())
    } else if color_type_of(data[9]) is None {
        Err(ErrorModel::Format(numbered_spec("invalid color type ("@, data[9])))
    } else if data.len() < 11 {
        Err(too_short())
    } else if data[10] != 0 {
        Err(ErrorModel::Format(numbered_spec("unknown compression method ("@, data[10])))
    } else if data.len() < 12 {
        Err(too_short())
    } else if data[11] != 0 {
        Err(ErrorModel::Format(numbered_spec("unknown filter method ("@, data[11])))
    } else if data.len() < 13 {
        Err(too_short())
    } else if data[12] > 1 {
        Err(ErrorModel::Format(numbered_spec("unknown interlace method ("@, data[12])))
    } else {
        Ok(
            InfoModel {
                width: be32(data.take(4)),
                height: be32(data.subrange(4, 8)),
                bit_depth: data[8],
                color_type: color_type_of(data[9])->0,
                interlaced: data[12] == 1,
                trns: None,
                palette: None,
            },
        )
    }
}

/// What is known of the image after a palette chunk.
pub open spec fn with_palette(info: Option<InfoModel>, data: Seq<u8>) -> Option<InfoModel> {
    match info {
        Some(info) => Some(InfoModel { palette: Some(data), ..info }),
        None => None,
    }
}

/// What is known of the image after a transparency chunk.
pub open spec fn with_trns(info: Option<InfoModel>, data: Seq<u8>) -> Result<
    InfoModel,
    ErrorModel,
> {
    match info {
        None => Err(header_missing()),
        Some(info) => match info.color_type {
            ColorType::Grayscale | ColorType::RGB => Err(
                ErrorModel::Unsupported(Unsupported::Transparency(info.color_type)),
            ),
            ColorType::Indexed => if info.palette is None {
                Err(ErrorModel::Format("tRNS chunk occured before PLTE chunk"@))
            } else {
                Ok(InfoModel { trns: Some(data), ..info })
            },
            ColorType::GrayscaleAlpha | ColorType::RGBA => Err(
                ErrorModel::Format(
                    numbered_spec(
                        "tRNS chunk found for color type ("@,
                        info.color_type.code_spec(),
                    ),
                ),
            ),
        },
    }
}

/// The step that makes use of a chunk whose data has all been read. Chunks of other types are
/// skipped.
pub open spec fn parse(d: DecoderModel, kind: Seq<u8>, covered: Seq<u8>, data: Seq<u8>) -> Tick {
    let next = d.at(Phase::Check { kind, covered, seen: Seq::empty() });
    if kind == ihdr() {
        match header(data) {
            Ok(info) => Tick {
                next: DecoderModel { info: Some(info), ..next },
                took: false,
                outcome: Ok(
                    DecodedModel::Header(
                        info.width,
                        info.height,
                        info.bit_depth,
                        info.color_type,
                        info.interlaced,
                    ),
                ),
            },
            Err(error) => fails(d, error),
        }
    } else if kind == plte() {
        leaves(DecoderModel { info: with_palette(d.info, data), ..next })
    } else if kind == trns() {
        match with_trns(d.info, data) {
            Ok(info) => leaves(DecoderModel { info: Some(info), ..next }),
            Err(error) => fails(d, error),
        }
    } else {
        leaves(next)
    }
}

/// The number of bytes that the current row lacks, where a row that lacks none makes way for the
/// next one; nothing, where the length of a row is not known.
pub open spec fn row_lacks(d: DecoderModel) -> Option<nat> {
    if d.row_left > 0 {
        Some(d.row_left)
    } else {
        match d.info {
            Some(info) => Some(info.raw_row_length()),
            None => None,
        }
    }
}

/// The number of bytes of image data that are asked for: no more than the row lacks.
pub open spec fn row_room(lacks: nat) -> nat {
    if lacks < IMAGE_BUFFER_SIZE {
        lacks
    } else {
        IMAGE_BUFFER_SIZE as nat
    }
}

/// `n` bytes of image data, reported on the way from `before` to `after`, lie inside one row: the
/// row lacked at least so many, and lacks so many fewer afterwards. They fit into the image buffer.
pub open spec fn data_fits(before: DecoderModel, n: nat, after: DecoderModel) -> bool {
    &&& row_lacks(before) is Some
    &&& n <= row_lacks(before)->0
    &&& after.row_left == row_lacks(before)->0 - n
    &&& n <= IMAGE_BUFFER_SIZE
}

/// The step that decompresses what is held of a chunk, from position `at` on, and reports the
/// image data.
pub open spec fn decompress(
    d: DecoderModel,
    kind: Seq<u8>,
    covered: Seq<u8>,
    left: nat,
    data: Seq<u8>,
    at: nat,
) -> Tick {
    match row_lacks(d) {
        None => fails(d, header_missing()),
        Some(lacks) => {
            let input = data.skip(at as int);
            let called = DecoderModel {
                calls: d.calls.push((input, row_room(lacks))),
                row_left: lacks,
                ..d
            };
            match inflate_meaning(inflate_reply(d.calls, input, row_room(lacks)), input.len()) {
                None => fails(called, ErrorModel::CorruptFlateStream),
                Some((ended, used, written)) => {
                    let after = DecoderModel {
                        row_left: (lacks - written.len()) as nat,
                        ..called
                    };
                    let read_on = Phase::Read { kind, covered, left, data: Seq::empty() };
                    let go_on = Phase::Inflate { kind, covered, left, data, at: at + used };
                    let outcome = Ok(DecodedModel::ImageData(written));
                    match after_inflate_spec(
                        ended,
                        at,
                        used,
                        written.len(),
                        data.len(),
                        left,
                    ) {
                        AfterInflate::Corrupt => fails(after, ErrorModel::CorruptFlateStream),
                        AfterInflate::UsedUp => Tick {
                            next: after.at(read_on),
                            took: false,
                            outcome,
                        },
                        AfterInflate::From(_) => Tick {
                            next: after.at(go_on),
                            took: false,
                            outcome,
                        },
                    }
                },
            }
        },
    }
}

/// The decoder behind a chunk of this type.
pub open spec fn chunk_done(d: DecoderModel, kind: Seq<u8>) -> DecoderModel {
    DecoderModel {
        phase: Phase::Length { seen: Seq::empty() },
        meta_read: d.meta_read || (kind == iend() && d.info is Some),
        ..d
    }
}

/// The step that takes the last byte of the check of a chunk.
pub open spec fn check(d: DecoderModel, kind: Seq<u8>, covered: Seq<u8>, stored: u32) -> Tick {
    if stored == crc32(covered) {
        Tick {
            next: chunk_done(d, kind),
            took: true,
            outcome: Ok(
                if kind == iend() {
                    DecodedModel::ImageEnd
                } else {
                    DecodedModel::ChunkComplete(stored, kind)
                },
            ),
        }
    } else {
        fails(
            d,
            ErrorModel::CrcMismatch {
                recover: 1,
                crc_val: stored,
                crc_sum: crc32(covered),
                chunk: kind,
            },
        )
    }
}

/// One step of the decoder, with `byte` next in the file.
pub open spec fn tick(d: DecoderModel, byte: u8) -> Tick {
    match d.phase {
        Phase::Signature { seen } => {
            let seen = seen.push(byte);
            if seen.len() < 8 {
                takes(d.at(Phase::Signature { seen }))
            } else if seen == signature() {
                takes(d.at(Phase::Length { seen: Seq::empty() }))
            } else {
                fails(d, ErrorModel::InvalidSignature)
            }
        },
        Phase::Length { seen } => {
            let seen = seen.push(byte);
            if seen.len() < 4 {
                takes(d.at(Phase::Length { seen }))
            } else {
                takes(d.at(Phase::Type { length: be32(seen), seen: Seq::empty() }))
            }
        },
        Phase::Type { length, seen } => {
            let seen = seen.push(byte);
            if seen.len() < 4 {
                takes(d.at(Phase::Type { length, seen }))
            } else {
                Tick {
                    next: chunk_begun(d, seen, length as nat),
                    took: true,
                    outcome: Ok(DecodedModel::ChunkBegin(length, seen)),
                }
            }
        },
        Phase::Read { kind, covered, left, data } => {
            if left == 0 {
                leaves(d.at(Phase::Check { kind, covered, seen: Seq::empty() }))
            } else if data.len() >= CHUNCK_BUFFER_SIZE {
                leaves(d.at(Phase::Full { kind, covered, left, data }))
            } else {
                let covered = covered.push(byte);
                let data = data.push(byte);
                if left == 1 {
                    takes(d.at(Phase::Full { kind, covered, left: 0, data }))
                } else {
                    takes(d.at(Phase::Read { kind, covered, left: (left - 1) as nat, data }))
                }
            }
        },
        Phase::Full { kind, covered, left, data } => {
            if kind == idat() {
                leaves(d.at(Phase::Inflate { kind, covered, left, data, at: 0 }))
            } else if left == 0 {
                parse(d, kind, covered, data)
            } else {
                leaves(d.at(Phase::Read { kind, covered, left, data: Seq::empty() }))
            }
        },
        Phase::Inflate { kind, covered, left, data, at } => decompress(
            d,
            kind,
            covered,
            left,
            data,
            at,
        ),
        Phase::Check { kind, covered, seen } => {
            let seen = seen.push(byte);
            if seen.len() < 4 {
                takes(d.at(Phase::Check { kind, covered, seen }))
            } else {
                check(d, kind, covered, be32(seen))
            }
        },
        Phase::Failed => leaves(d),
    }
}

/// The decoder stands in the data of a chunk of image data.
pub open spec fn in_image_data(d: DecoderModel) -> bool {
    match d.phase {
        Phase::Read { kind, .. } => kind == idat(),
        Phase::Full { kind, .. } => kind == idat(),
        Phase::Inflate { .. } => true,
        _ => false,
    }
}

/// How far a decoder is from the next step that takes a byte.
pub open spec fn rank(d: DecoderModel) -> nat {
    match d.phase {
        Phase::Read { left, data, .. } => if left == 0 {
            1
        } else if data.len() >= CHUNCK_BUFFER_SIZE {
            4
        } else {
            0
        },
        Phase::Full { .. } => 3,
        Phase::Inflate { .. } => 2,
        _ => 0,
    }
}

/// What handing bytes to the decoder does: what it holds afterwards, and how many bytes it took
/// with what it reports.
#[verifier::ext_equal]
pub struct Update {
    pub after: DecoderModel,
    pub outcome: Result<(nat, DecodedModel), ErrorModel>,
}

/// An update that took `n` bytes more.
pub open spec fn plus_taken(n: nat, update: Update) -> Update {
    match update.outcome {
        Ok((taken, decoded)) => Update {
            after: update.after,
            outcome: Ok((n + taken, decoded)),
        },
        Err(_) => update,
    }
}

/// The steps of the decoder on the bytes `buf`, up to the first that reports something or fails,
/// or to the last byte. A decoder that has failed takes nothing.
pub open spec fn updated(d: DecoderModel, buf: Seq<u8>) -> Update
    decreases buf.len(), rank(d),
{
    if buf.len() == 0 || d.phase is Failed {
        Update { after: d, outcome: Ok((0, DecodedModel::Nothing)) }
    } else {
        let tick = tick(d, buf[0]);
        match tick.outcome {
            Err(error) => Update { after: tick.next, outcome: Err(error) },
            Ok(DecodedModel::Nothing) => if tick.took {
                plus_taken(1, updated(tick.next, buf.skip(1)))
            } else {
                updated(tick.next, buf)
            },
            Ok(decoded) => Update {
                after: tick.next,
                outcome: Ok((if tick.took { 1 } else { 0 }, decoded)),
            },
        }
    }
}

/// The phase in the data of a chunk after the bytes `more`.
pub open spec fn read_on(
    kind: Seq<u8>,
    covered: Seq<u8>,
    left: nat,
    data: Seq<u8>,
    more: Seq<u8>,
) -> Phase {
    if left <= more.len() {
        Phase::Full { kind, covered: covered + more, left: 0, data: data + more }
    } else {
        Phase::Read {
            kind,
            covered: covered + more,
            left: (left - more.len()) as nat,
            data: data + more,
        }
    }
}

/// A run of bytes that belong to the data of a chunk, and for which there is room, is taken as a
/// whole.
pub proof fn lemma_read_run(
    d: DecoderModel,
    kind: Seq<u8>,
    covered: Seq<u8>,
    left: nat,
    data: Seq<u8>,
    buf: Seq<u8>,
    n: nat,
)
    requires
        d.phase == (Phase::Read { kind, covered, left, data }),
        1 <= n <= buf.len(),
        n <= left,
        data.len() + n <= CHUNCK_BUFFER_SIZE,
    ensures
        updated(d, buf) == plus_taken(
            n,
            updated(
                d.at(read_on(kind, covered, left, data, buf.take(n as int))),
                buf.skip(n as int),
            ),
        ),
    decreases n,
{
    let one = tick(d, buf[0]).next;
    let more = buf.take(n as int);
    if n == 1 {
        assert(covered + more =~= covered.push(buf[0]));
        assert(data + more =~= data.push(buf[0]));
    } else {
        let rest = buf.skip(1);
        lemma_read_run(
            one,
            kind,
            covered.push(buf[0]),
            (left - 1) as nat,
            data.push(buf[0]),
            rest,
            (n - 1) as nat,
        );
        let tail = rest.take(n - 1);
        assert(covered.push(buf[0]) + tail =~= covered + more);
        assert(data.push(buf[0]) + tail =~= data + more);
        assert(rest.skip(n - 1) =~= buf.skip(n as int));
    }
}

/// The number of bytes of `buf` that belong to the data of a chunk of which `left` bytes are to
/// come, and for which there is room beside the `held` bytes that are held.
pub open spec fn run_length(left: nat, held: nat, buf: nat) -> nat {
    let room = (CHUNCK_BUFFER_SIZE - held) as nat;
    if buf <= left && buf <= room {
        buf
    } else if left <= room {
        left
    } else {
        room
    }
}

/// One call into the decoder's machine, with the bytes `buf` next in the file: one step, but for
/// the bytes of a chunk's data, of which all are taken that there are and that there is room for.
pub open spec fn stepped(d: DecoderModel, buf: Seq<u8>) -> Update {
    match d.phase {
        Phase::Read { kind, covered, left, data } if left > 0 && data.len()
            < CHUNCK_BUFFER_SIZE => {
            let n = run_length(left, data.len(), buf.len());
            Update {
                after: d.at(read_on(kind, covered, left, data, buf.take(n as int))),
                outcome: Ok((n, DecodedModel::Nothing)),
            }
        },
        _ => {
            let step = tick(d, buf[0]);
            Update {
                after: step.next,
                outcome: match step.outcome {
                    Ok(decoded) => Ok(
                        (
                            if step.took {
                                1
                            } else {
                                0
                            },
                            decoded,
                        ),
                    ),
                    Err(error) => Err(error),
                },
            }
        },
    }
}

/// An update is made of such calls, up to the first that reports something or fails.
pub proof fn lemma_stepped(d: DecoderModel, buf: Seq<u8>)
    requires
        buf.len() > 0,
        d.phase !is Failed,
    ensures
        match stepped(d, buf).outcome {
            Ok((taken, DecodedModel::Nothing)) => {
                let after = stepped(d, buf).after;
                &&& after.phase !is Failed
                &&& taken <= buf.len()
                &&& taken > 0 || rank(after) < rank(d)
                &&& updated(d, buf) == plus_taken(taken, updated(after, buf.skip(taken as int)))
            },
            _ => updated(d, buf) == stepped(d, buf),
        },
{
    assert(buf.skip(0) =~= buf);
    if let Phase::Read { kind, covered, left, data } = d.phase {
        if left > 0 && data.len() < CHUNCK_BUFFER_SIZE {
            let n = run_length(left, data.len(), buf.len());
            lemma_read_run(d, kind, covered, left, data, buf, n);
        }
    }
}

/// The number of bytes that are held of a chunk and not decompressed yet.
pub open spec fn inflate_left(d: DecoderModel) -> nat {
    match d.phase {
        Phase::Inflate { data, at, .. } => if at < data.len() {
            (data.len() - at) as nat
        } else {
            0
        },
        _ => 0,
    }
}

/// What holds of a decoder in every state that decoding can lead to.
pub open spec fn decoder_sound(d: DecoderModel) -> bool {
    &&& info_sound(d.info)
    &&& d.meta_read ==> d.info is Some
    &&& d.phase matches Phase::Inflate { data, at, .. } ==> at <= data.len()
    &&& d.phase matches Phase::Read { left, data, .. } ==> left == 0 ==> data.len() == 0
}

/// What an update takes: never more than there is, and all of it where it reports nothing. What
/// it reports other than image data brings the decoder closer to the end of the bytes or of what
/// it holds. A decoder fails with an error, and only so.
pub proof fn lemma_taken(d: DecoderModel, buf: Seq<u8>)
    ensures
        match updated(d, buf).outcome {
            Err(_) => updated(d, buf).after.phase is Failed,
            Ok((taken, decoded)) => {
                let after = updated(d, buf).after;
                &&& taken <= buf.len()
                &&& d.phase !is Failed ==> after.phase !is Failed
                &&& d.phase !is Failed && decoded is Nothing ==> taken == buf.len()
                &&& decoded !is Nothing && decoded !is ImageData ==> taken > 0 || rank(after)
                    < rank(d)
            },
        },
    decreases buf.len(), rank(d),
{
    if buf.len() > 0 && d.phase !is Failed {
        let step = tick(d, buf[0]);
        if step.outcome == Ok::<DecodedModel, ErrorModel>(DecodedModel::Nothing) {
            if step.took {
                lemma_taken(step.next, buf.skip(1));
            } else {
                lemma_taken(step.next, buf);
            }
        }
    }
}

/// Image data that is empty brings the decoder closer to the end of the bytes or of what it holds.
pub proof fn lemma_empty_image_data(d: DecoderModel, buf: Seq<u8>)
    requires
        decoder_sound(d),
        decoder_sound(updated(d, buf).after),
    ensures
        updated(d, buf).outcome matches Ok((taken, DecodedModel::ImageData(data))) ==> {
            let after = updated(d, buf).after;
            data.len() > 0 || taken > 0 || rank(after) < rank(d) || (rank(after) == rank(d)
                && inflate_left(after) < inflate_left(d))
        },
    decreases buf.len(), rank(d),
{
    if buf.len() > 0 && d.phase !is Failed {
        let step = tick(d, buf[0]);
        if step.outcome == Ok::<DecodedModel, ErrorModel>(DecodedModel::Nothing) {
            if step.took {
                lemma_empty_image_data(step.next, buf.skip(1));
            } else {
                lemma_empty_image_data(step.next, buf);
            }
        }
    }
}

/// What is known of an image is not forgotten.
pub proof fn lemma_info_stays(d: DecoderModel, buf: Seq<u8>)
    ensures
        d.info is Some ==> updated(d, buf).after.info is Some,
    decreases buf.len(), rank(d),
{
    if buf.len() > 0 && d.phase !is Failed {
        let step = tick(d, buf[0]);
        if step.outcome == Ok::<DecodedModel, ErrorModel>(DecodedModel::Nothing) {
            if step.took {
                lemma_info_stays(step.next, buf.skip(1));
            } else {
                lemma_info_stays(step.next, buf);
            }
        }
    }
}

} // verus!
