//! The decoder: bytes of a file in, decoded blocks out.
use crate::chunk::{lemma_names, same_type, ChunkType, IDAT, IEND, IHDR, PLTE, TRNS};
use crate::crc::Crc32;
use crate::error::{format_error, numbered, DecodingError, ErrorModel, ReadError, Unsupported};
use crate::inflater::{after_inflate, AfterInflate, Inflater};
use crate::model::{
    be32, data_fits, decoder_sound, fresh, header, header_missing, lemma_stepped,
    lemma_taken, parse, plus_taken, rank, read_on, row_lacks, row_room, signature, stepped, tick,
    too_short, updated, with_palette, with_trns, DecodedModel, DecoderModel, Phase, Update,
    CHUNCK_BUFFER_SIZE, IMAGE_BUFFER_SIZE,
};
use crate::types::{ColorType, Info, InfoModel};
use vstd::prelude::*;
use vstd::slice::slice_subrange;

verus! {

/// What a four-byte number in the file is.
#[derive(Clone, Copy, Debug)]
enum U32Value {
    Length,
    Type(u32),
    Crc(ChunkType),
}

#[derive(Clone, Copy, Debug)]
enum State {
    Signature(u8, [u8; 7]),
    U32Byte3(U32Value, u32),
    U32Byte2(U32Value, u32),
    U32Byte1(U32Value, u32),
    U32(U32Value),
    ReadChunk(ChunkType, bool),
    PartialChunk(ChunkType),
    DecodeData(ChunkType, usize),
}

/// What a step reports. Image data is given by its length: it lies in the image buffer.
#[derive(Clone, Copy, Debug)]
enum Event {
    Nothing,
    Header(u32, u32, u8, ColorType, bool),
    ChunkBegin(u32, ChunkType),
    ChunkComplete(u32, ChunkType),
    ImageData(usize),
    ImageEnd,
}

impl Event {
    spec fn model(self, image: Seq<u8>) -> DecodedModel {
        match self {
            Event::Nothing => DecodedModel::Nothing,
            Event::Header(width, height, depth, color_type, interlaced) => DecodedModel::Header(
                width,
                height,
                depth,
                color_type,
                interlaced,
            ),
            Event::ChunkBegin(length, kind) => DecodedModel::ChunkBegin(length, kind@),
            Event::ChunkComplete(crc, kind) => DecodedModel::ChunkComplete(crc, kind@),
            Event::ImageData(n) => DecodedModel::ImageData(image.take(n as int)),
            Event::ImageEnd => DecodedModel::ImageEnd,
        }
    }
}

/// Result of the decoding process
#[derive(Debug)]
pub enum Decoded<'a> {
    /// Nothing decoded yet
    Nothing,
    Header(u32, u32, u8, ColorType, bool),
    ChunkBegin(u32, ChunkType),
    ChunkComplete(u32, ChunkType),
    /// Decoded raw image data
    ///
    /// The buffer is guaranteed not to span over
    /// row boundaries.
    ImageData(&'a [u8]),
    ImageEnd,
}

impl<'a> View for Decoded<'a> {
    type V = DecodedModel;

    open spec fn view(&self) -> DecodedModel {
        match *self {
            Decoded::Nothing => DecodedModel::Nothing,
            Decoded::Header(width, height, depth, color_type, interlaced) => DecodedModel::Header(
                width,
                height,
                depth,
                color_type,
                interlaced,
            ),
            Decoded::ChunkBegin(length, kind) => DecodedModel::ChunkBegin(length, kind@),
            Decoded::ChunkComplete(crc, kind) => DecodedModel::ChunkComplete(crc, kind@),
            Decoded::ImageData(data) => DecodedModel::ImageData(data@),
            Decoded::ImageEnd => DecodedModel::ImageEnd,
        }
    }
}

/// The mathematical content of what an update returns.
pub open spec fn report_of(result: Result<(usize, Decoded<'_>), DecodingError>) -> Result<
    (nat, DecodedModel),
    ErrorModel,
> {
    match result {
        Ok((taken, decoded)) => Ok((taken as nat, decoded@)),
        Err(error) => Err(error@),
    }
}

/// The bytes of a number, the most significant first.
spec fn word_bytes(word: u32) -> Seq<u8> {
    seq![(word >> 24) as u8, (word >> 16) as u8, (word >> 8) as u8, word as u8]
}

proof fn lemma_first_byte(byte: u8)
    ensures
        word_bytes((byte as u32) << 24).take(1) == Seq::<u8>::empty().push(byte),
        ((byte as u32) << 24) & 0x00FF_FFFF == 0,
{
    assert((((byte as u32) << 24) >> 24) as u8 == byte) by (bit_vector);
    assert(((byte as u32) << 24) & 0x00FF_FFFF == 0) by (bit_vector);
    assert(word_bytes((byte as u32) << 24).take(1) =~= Seq::<u8>::empty().push(byte));
}

proof fn lemma_second_byte(word: u32, byte: u8)
    requires
        word & 0x00FF_FFFF == 0,
    ensures
        word_bytes(word | (byte as u32) << 16).take(2) == word_bytes(word).take(1).push(byte),
        (word | (byte as u32) << 16) & 0xFFFF == 0,
{
    let next = word | (byte as u32) << 16;
    assert((next >> 24) as u8 == (word >> 24) as u8 && (next >> 16) as u8 == byte && next & 0xFFFF
        == 0) by (bit_vector)
        requires
            word & 0x00FF_FFFF == 0,
            next == word | (byte as u32) << 16,
    ;
    assert(word_bytes(next).take(2) =~= word_bytes(word).take(1).push(byte));
}

proof fn lemma_third_byte(word: u32, byte: u8)
    requires
        word & 0xFFFF == 0,
    ensures
        word_bytes(word | (byte as u32) << 8).take(3) == word_bytes(word).take(2).push(byte),
        (word | (byte as u32) << 8) & 0xFF == 0,
{
    let next = word | (byte as u32) << 8;
    assert((next >> 24) as u8 == (word >> 24) as u8 && (next >> 16) as u8 == (word >> 16) as u8 && (
    next >> 8) as u8 == byte && next & 0xFF == 0) by (bit_vector)
        requires
            word & 0xFFFF == 0,
            next == word | (byte as u32) << 8,
    ;
    assert(word_bytes(next).take(3) =~= word_bytes(word).take(2).push(byte));
}

proof fn lemma_fourth_byte(word: u32, byte: u8)
    requires
        word & 0xFF == 0,
    ensures
        word_bytes(word | byte as u32) == word_bytes(word).take(3).push(byte),
        be32(word_bytes(word).take(3).push(byte)) == word | byte as u32,
{
    let next = word | byte as u32;
    assert((next >> 24) as u8 == (word >> 24) as u8 && (next >> 16) as u8 == (word >> 16) as u8 && (
    next >> 8) as u8 == (word >> 8) as u8 && next as u8 == byte) by (bit_vector)
        requires
            word & 0xFF == 0,
            next == word | byte as u32,
    ;
    assert(word_bytes(next) =~= word_bytes(word).take(3).push(byte));
    lemma_word_value(next);
}

proof fn lemma_word_value(word: u32)
    ensures
        be32(word_bytes(word)) == word,
{
    let a = (word >> 24) as u8;
    let b = (word >> 16) as u8;
    let c = (word >> 8) as u8;
    let d = word as u8;
    assert(a * 0x100_0000 + b * 0x1_0000 + c * 0x100 + d == word) by (bit_vector)
        requires
            a == (word >> 24) as u8,
            b == (word >> 16) as u8,
            c == (word >> 8) as u8,
            d == word as u8,
    ;
}

/// PNG decoder (low-level interface)
pub struct Decoder {
    state: Option<State>,
    current_chunk: (Crc32, u32, Vec<u8>),
    inflater: Inflater,
    image_data: Vec<u8>,
    row_remaining: u64,
    info: Option<Info>,
    /// After the header, the first IDAT chunk or the end of the image has been come to
    meta_read: bool,
}

/// The content of an optional description of an image.
pub open spec fn info_of(info: Option<Info>) -> Option<InfoModel> {
    match info {
        Some(info) => Some(info@),
        None => None,
    }
}

impl View for Decoder {
    type V = DecoderModel;

    closed spec fn view(&self) -> DecoderModel {
        DecoderModel {
            phase: self.phase(),
            calls: self.inflater@,
            row_left: self.row_remaining as nat,
            info: info_of(self.info),
            meta_read: self.meta_read,
        }
    }
}

impl Decoder {
    spec fn word_phase(&self, value: U32Value, seen: Seq<u8>) -> Phase {
        match value {
            U32Value::Length => Phase::Length { seen },
            U32Value::Type(length) => Phase::Type { length, seen },
            U32Value::Crc(kind) => Phase::Check {
                kind: kind@,
                covered: self.current_chunk.0@,
                seen,
            },
        }
    }

    spec fn phase(&self) -> Phase {
        let covered = self.current_chunk.0@;
        let left = self.current_chunk.1 as nat;
        let data = self.current_chunk.2@;
        match self.state {
            None => Phase::Failed,
            Some(State::Signature(i, bytes)) => Phase::Signature { seen: bytes@.take(i as int) },
            Some(State::U32(value)) => self.word_phase(value, Seq::empty()),
            Some(State::U32Byte1(value, word)) => self.word_phase(value, word_bytes(word).take(1)),
            Some(State::U32Byte2(value, word)) => self.word_phase(value, word_bytes(word).take(2)),
            Some(State::U32Byte3(value, word)) => self.word_phase(value, word_bytes(word).take(3)),
            Some(State::ReadChunk(kind, clear)) => Phase::Read {
                kind: kind@,
                covered,
                left,
                data: if clear {
                    Seq::empty()
                } else {
                    data
                },
            },
            Some(State::PartialChunk(kind)) => Phase::Full { kind: kind@, covered, left, data },
            Some(State::DecodeData(kind, at)) => Phase::Inflate {
                kind: kind@,
                covered,
                left,
                data,
                at: at as nat,
            },
        }
    }

    spec fn state_sound(&self) -> bool {
        match self.state {
            Some(State::Signature(i, bytes)) => i <= 7,
            Some(State::U32Byte1(value, word)) => word & 0x00FF_FFFF == 0,
            Some(State::U32Byte2(value, word)) => word & 0xFFFF == 0,
            Some(State::U32Byte3(value, word)) => word & 0xFF == 0,
            Some(State::DecodeData(kind, at)) => at <= self.current_chunk.2@.len(),
            _ => true,
        }
    }

    /// The fields hold together.
    pub closed spec fn fields_wf(&self) -> bool {
        &&& self.state_sound()
        &&& self.current_chunk.0.wf()
        &&& self.inflater.wf()
        &&& self.current_chunk.2@.len() <= CHUNCK_BUFFER_SIZE
        &&& self.image_data@.len() == IMAGE_BUFFER_SIZE
    }

    /// The decoder is in a state that decoding can lead to.
    pub open spec fn wf(&self) -> bool {
        &&& self.fields_wf()
        &&& decoder_sound(self@)
    }

    /// Creates a new decoder
    ///
    /// Allocates the internal buffers (40 KiB) needed for decoding the image.
    pub fn new() -> (decoder: Decoder)
        ensures
            decoder.wf(),
            decoder@ == fresh(),
    {
        let decoder = Decoder {
            state: Some(State::Signature(0, [0; 7])),
            current_chunk: (Crc32::new(), 0, Vec::with_capacity(CHUNCK_BUFFER_SIZE)),
            inflater: Inflater::new(),
            image_data: vec![0; IMAGE_BUFFER_SIZE],
            row_remaining: 0,
            info: None,
            meta_read: false,
        };
        assert(decoder@ =~~= fresh());
        decoder
    }

    /// Resets the decoder
    pub fn reset(&mut self)
        requires
            old(self).wf(),
        ensures
            final(self).wf(),
            final(self)@ == fresh(),
    {
        self.state = Some(State::Signature(0, [0; 7]));
        self.current_chunk.0 = Crc32::new();
        self.current_chunk.2.clear();
        self.inflater = Inflater::new();
        self.row_remaining = 0;
        self.info = None;
        self.meta_read = false;
        assert(self@ =~~= fresh());
    }

    /// What is known of the image, or the error that the header is missing.
    fn get_info_or_err(&self) -> (info: Result<&Info, DecodingError>)
        ensures
            match info {
                Ok(info) => self.info == Some(*info),
                Err(error) => self.info is None && error@ == header_missing(),
            },
    {
        match &self.info {
            Some(info) => Ok(info),
            None => Err(format_error("IHDR chunk missing")),
        }
    }

    fn parse_plte(&mut self) -> (event: Result<Event, DecodingError>)
        ensures
            event == Ok::<Event, DecodingError>(Event::Nothing),
            info_of(final(self).info) == with_palette(
                info_of(old(self).info),
                old(self).current_chunk.2@,
            ),
            *final(self) == (Decoder { info: final(self).info, ..*old(self) }),
    {
        let palette = copied(self.current_chunk.2.as_slice());
        if let Some(info) = self.info.as_mut() {
            info.palette = Some(palette);
        }
        Ok(Event::Nothing)
    }

    fn parse_trns(&mut self) -> (event: Result<Event, DecodingError>)
        ensures
            match with_trns(info_of(old(self).info), old(self).current_chunk.2@) {
                Ok(info) => {
                    &&& event == Ok::<Event, DecodingError>(Event::Nothing)
                    &&& info_of(final(self).info) == Some(info)
                },
                Err(error) => {
                    &&& event matches Err(failure) && failure@ == error
                    &&& final(self).info == old(self).info
                },
            },
            *final(self) == (Decoder { info: final(self).info, ..*old(self) }),
    {
        let color_type = match self.get_info_or_err() {
            Ok(info) => info.color_type,
            Err(error) => return Err(error),
        };
        match color_type {
            ColorType::Grayscale | ColorType::RGB => Err(
                DecodingError::Unsupported(Unsupported::Transparency(color_type)),
            ),
            ColorType::Indexed => {
                let trns = copied(self.current_chunk.2.as_slice());
                match self.info.as_mut() {
                    Some(info) => {
                        if info.palette.is_none() {
                            return Err(format_error("tRNS chunk occured before PLTE chunk"));
                        }
                        info.trns = Some(trns);
                        Ok(Event::Nothing)
                    },
                    None => Ok(Event::Nothing),
                }
            },
            ColorType::GrayscaleAlpha | ColorType::RGBA => Err(
                DecodingError::Format(
                    numbered("tRNS chunk found for color type (", color_type.code()),
                ),
            ),
        }
    }

    fn parse_ihdr(&mut self) -> (event: Result<Event, DecodingError>)
        ensures
            match header(old(self).current_chunk.2@) {
                Ok(info) => {
                    &&& event == Ok::<Event, DecodingError>(
                        Event::Header(
                            info.width,
                            info.height,
                            info.bit_depth,
                            info.color_type,
                            info.interlaced,
                        ),
                    )
                    &&& info_of(final(self).info) == Some(info)
                },
                Err(error) => {
                    &&& event matches Err(failure) && failure@ == error
                    &&& final(self).info == old(self).info
                },
            },
            *final(self) == (Decoder { info: final(self).info, ..*old(self) }),
    {
        let data = self.current_chunk.2.as_slice();
        let width: u32 = read_be32(data, 0)?;
        let height: u32 = read_be32(data, 4)?;
        let bit_depth: u8 = read_byte(data, 8)?;
        match bit_depth {
            1 | 2 | 4 | 8 | 16 => {},
            n => return Err(DecodingError::Format(numbered("invalid bit depth (", n))),
        }
        let code: u8 = read_byte(data, 9)?;
        let color_type = match ColorType::from_u8(code) {
            Some(color_type) => color_type,
            None => return Err(DecodingError::Format(numbered("invalid color type (", code))),
        };
        let compression: u8 = read_byte(data, 10)?;
        if compression != 0 {
            return Err(
                DecodingError::Format(numbered("unknown compression method (", compression)),
            );
        }
        let filter: u8 = read_byte(data, 11)?;
        if filter != 0 {
            return Err(DecodingError::Format(numbered("unknown filter method (", filter)));
        }
        let interlace: u8 = read_byte(data, 12)?;
        let interlaced = match interlace {
            0 => false,
            1 => true,
            n => return Err(DecodingError::Format(numbered("unknown interlace method (", n))),
        };
        self.info = Some(
            Info { width, height, bit_depth, color_type, interlaced, trns: None, palette: None },
        );
        Ok(Event::Header(width, height, bit_depth, color_type, interlaced))
    }

    fn parse_chunk(&mut self, type_str: ChunkType) -> (event: Result<Event, DecodingError>)
        requires
            old(self).wf(),
            old(self).state == Some(State::PartialChunk(type_str)),
        ensures
            final(self).wf(),
            ({
                let step = parse(
                    old(self)@,
                    type_str@,
                    old(self).current_chunk.0@,
                    old(self).current_chunk.2@,
                );
                &&& final(self)@ == step.next
                &&& !step.took
                &&& event == Ok::<Event, DecodingError>(Event::Nothing) ==> row_lacks(final(self)@)
                    == row_lacks(old(self)@)
                &&& event !is Ok || event->Ok_0 !is ImageData
                &&& event is Err <==> final(self)@.phase is Failed
                &&& event is Ok ==> final(self)@.phase == (Phase::Check {
                    kind: type_str@,
                    covered: old(self).current_chunk.0@,
                    seen: Seq::empty(),
                })
                &&& match event {
                    Ok(event) => step.outcome == Ok::<DecodedModel, ErrorModel>(
                        event.model(final(self).image_data@),
                    ),
                    Err(error) => step.outcome == Err::<DecodedModel, ErrorModel>(error@),
                }
            }),
    {
        proof {
            lemma_names();
        }
        self.state = Some(State::U32(U32Value::Crc(type_str)));
        let event = if same_type(type_str, IHDR) {
            self.parse_ihdr()
        } else if same_type(type_str, PLTE) {
            self.parse_plte()
        } else if same_type(type_str, TRNS) {
            self.parse_trns()
        } else {
            // Skip other and unknown chunks.
            Ok(Event::Nothing)
        };
        if event.is_err() {
            self.state = None;
        }
        event
    }

    /// Takes a byte of the signature.
    fn read_signature(&mut self, i: u8, bytes: [u8; 7], byte: u8) -> (result: Result<
        (),
        DecodingError,
    >)
        requires
            old(self).wf(),
            old(self).state == Some(State::Signature(i, bytes)),
        ensures
            final(self).wf(),
            final(self)@ == tick(old(self)@, byte).next,
            final(self)@.phase is Failed <==> result is Err,
            row_lacks(final(self)@) == row_lacks(old(self)@),
            match result {
                Ok(_) => {
                    &&& tick(old(self)@, byte).took
                    &&& tick(old(self)@, byte).outcome == Ok::<DecodedModel, ErrorModel>(
                        DecodedModel::Nothing,
                    )
                },
                Err(error) => tick(old(self)@, byte).outcome == Err::<DecodedModel, ErrorModel>(
                    error@,
                ),
            },
    {
        let ghost seen = bytes@.take(i as int).push(byte);
        if i < 7 {
            let mut bytes = bytes;
            bytes[i as usize] = byte;
            self.state = Some(State::Signature(i + 1, bytes));
            assert(bytes@.take(i + 1) =~= seen);
            Ok(())
        } else {
            let signed = bytes[0] == 137 && bytes[1] == 80 && bytes[2] == 78 && bytes[3] == 71
                && bytes[4] == 13 && bytes[5] == 10 && bytes[6] == 26 && byte == 10;
            proof {
                assert(forall|j: int| 0 <= j < 7 ==> seen[j] == bytes@[j]);
                if signed {
                    assert(seen =~= signature());
                } else if seen == signature() {
                    assert(seen[0] == 137 && seen[1] == 80 && seen[2] == 78 && seen[3] == 71
                        && seen[4] == 13 && seen[5] == 10 && seen[6] == 26 && seen[7] == 10);
                }
            }
            if signed {
                self.state = Some(State::U32(U32Value::Length));
                Ok(())
            } else {
                self.state = None;
                Err(DecodingError::InvalidSignature)
            }
        }
    }

    /// Takes the last byte of a four-byte number.
    fn finish_word(&mut self, value: U32Value, word: u32, byte: u8) -> (event: Result<
        Event,
        DecodingError,
    >)
        requires
            old(self).wf(),
            old(self).state == Some(State::U32Byte3(value, word)),
        ensures
            final(self).wf(),
            final(self)@ == tick(old(self)@, byte).next,
            match event {
                Ok(event) => {
                    &&& tick(old(self)@, byte).took
                    &&& row_lacks(final(self)@) == row_lacks(old(self)@)
                    &&& event !is ImageData
                    &&& tick(old(self)@, byte).outcome == Ok::<DecodedModel, ErrorModel>(
                        event.model(final(self).image_data@),
                    )
                },
                Err(error) => tick(old(self)@, byte).outcome == Err::<DecodedModel, ErrorModel>(
                    error@,
                ),
            },
    {
        proof {
            lemma_fourth_byte(word, byte);
            lemma_names();
        }
        let val: u32 = word | byte as u32;
        match value {
            U32Value::Length => {
                self.state = Some(State::U32(U32Value::Type(val)));
                Ok(Event::Nothing)
            },
            U32Value::Type(length) => {
                let type_str: ChunkType = [
                    (val >> 24) as u8,
                    (val >> 16) as u8,
                    (val >> 8) as u8,
                    val as u8,
                ];
                assert(type_str@ =~= word_bytes(val));
                self.current_chunk.0.reset();
                self.current_chunk.0.update(type_str.as_slice());
                self.current_chunk.1 = length;
                if same_type(type_str, IDAT) {
                    self.meta_read = self.meta_read || self.info.is_some();
                }
                self.state = Some(State::ReadChunk(type_str, true));
                assert(self.current_chunk.0@ =~= type_str@);
                Ok(Event::ChunkBegin(length, type_str))
            },
            U32Value::Crc(type_str) => {
                let sum = self.current_chunk.0.checksum();
                if val == sum {
                    self.state = Some(State::U32(U32Value::Length));
                    if same_type(type_str, IEND) {
                        self.meta_read = self.meta_read || self.info.is_some();
                        Ok(Event::ImageEnd)
                    } else {
                        Ok(Event::ChunkComplete(val, type_str))
                    }
                } else {
                    self.state = None;
                    Err(
                        DecodingError::CrcMismatch {
                            recover: 1,
                            crc_val: val,
                            crc_sum: sum,
                            chunk: type_str,
                        },
                    )
                }
            },
        }
    }

    /// Reads on in the data of a chunk.
    fn read_chunk(&mut self, type_str: ChunkType, clear: bool, buf: &[u8]) -> (taken: usize)
        requires
            old(self).wf(),
            old(self).state == Some(State::ReadChunk(type_str, clear)),
            buf@.len() > 0,
        ensures
            final(self).wf(),
            row_lacks(final(self)@) == row_lacks(old(self)@),
            stepped(old(self)@, buf@) == (Update {
                after: final(self)@,
                outcome: Ok((taken as nat, DecodedModel::Nothing)),
            }),
    {
        if clear {
            self.current_chunk.2.clear();
        }
        let ghost covered = self.current_chunk.0@;
        let ghost data = self.current_chunk.2@;
        let ghost before = self@;
        let left: u32 = self.current_chunk.1;
        assert(before =~~= old(self)@);
        if left > 0 {
            let buf_avail: usize = CHUNCK_BUFFER_SIZE - self.current_chunk.2.len();
            if buf_avail == 0 {
                self.state = Some(State::PartialChunk(type_str));
                0
            } else {
                let bytes_avail: usize = if buf.len() < buf_avail { buf.len() } else { buf_avail };
                let n: u32 = if left < bytes_avail as u32 { left } else { bytes_avail as u32 };
                let part = slice_subrange(buf, 0, n as usize);
                self.current_chunk.0.update(part);
                self.current_chunk.2.extend_from_slice(part);
                self.current_chunk.1 = left - n;
                proof {
                    assert(part@ =~= buf@.take(n as int));
                    assert(self.current_chunk.2@ =~= data + part@);
                }
                if self.current_chunk.1 == 0 {
                    self.state = Some(State::PartialChunk(type_str));
                } else {
                    self.state = Some(State::ReadChunk(type_str, false));
                }
                assert(self@ =~~= before.at(
                    read_on(type_str@, covered, left as nat, data, part@),
                ));
                n as usize
            }
        } else {
            self.state = Some(State::U32(U32Value::Crc(type_str)));
            0
        }
    }

    /// Decompresses what is held of a chunk of image data.
    fn decode_data(&mut self, type_str: ChunkType, at: usize, byte: u8) -> (event: Result<
        Event,
        DecodingError,
    >)
        requires
            old(self).wf(),
            old(self).state == Some(State::DecodeData(type_str, at)),
        ensures
            final(self).wf(),
            final(self)@ == tick(old(self)@, byte).next,
            match event {
                Ok(event) => {
                    &&& !tick(old(self)@, byte).took
                    &&& event is ImageData
                    &&& data_fits(old(self)@, event->ImageData_0 as nat, final(self)@)
                    &&& tick(old(self)@, byte).outcome == Ok::<DecodedModel, ErrorModel>(
                        event.model(final(self).image_data@),
                    )
                },
                Err(error) => tick(old(self)@, byte).outcome == Err::<DecodedModel, ErrorModel>(
                    error@,
                ),
            },
    {
        let chunk_len = self.current_chunk.2.len();
        let remaining: u32 = self.current_chunk.1;
        if self.row_remaining == 0 {
            match self.get_info_or_err() {
                Ok(info) => {
                    self.row_remaining = info.raw_row_length();
                },
                Err(error) => {
                    self.state = None;
                    return Err(error);
                },
            }
        }
        let m: usize = if self.row_remaining < IMAGE_BUFFER_SIZE as u64 {
            self.row_remaining as usize
        } else {
            IMAGE_BUFFER_SIZE
        };
        let input = slice_subrange(self.current_chunk.2.as_slice(), at, chunk_len);
        assert(input@ =~= self.current_chunk.2@.skip(at as int));
        assert(m as nat == row_room(self.row_remaining as nat));
        match self.inflater.inflate(input, &mut self.image_data, m) {
            None => {
                self.state = None;
                Err(DecodingError::CorruptFlateStream)
            },
            Some((eof, used, written)) => {
                self.row_remaining = self.row_remaining - written as u64;
                match after_inflate(eof, at, used, written, chunk_len, remaining) {
                    AfterInflate::Corrupt => {
                        self.state = None;
                        Err(DecodingError::CorruptFlateStream)
                    },
                    AfterInflate::UsedUp => {
                        self.state = Some(State::ReadChunk(type_str, true));
                        Ok(Event::ImageData(written))
                    },
                    AfterInflate::From(n) => {
                        self.state = Some(State::DecodeData(type_str, n));
                        Ok(Event::ImageData(written))
                    },
                }
            },
        }
    }

    /// One step, or a run of steps that take bytes of a chunk's data.
    fn next_state(&mut self, buf: &[u8]) -> (event: Result<(usize, Event), DecodingError>)
        requires
            old(self).wf(),
            old(self)@.phase !is Failed,
            buf@.len() > 0,
        ensures
            final(self).wf(),
            final(self)@ == stepped(old(self)@, buf@).after,
            match event {
                Ok((taken, event)) => {
                    &&& stepped(old(self)@, buf@).outcome == Ok::<(nat, DecodedModel), ErrorModel>(
                        (taken as nat, event.model(final(self).image_data@)),
                    )
                    &&& event is Nothing ==> row_lacks(final(self)@) == row_lacks(old(self)@)
                    &&& event matches Event::ImageData(n) ==> data_fits(
                        old(self)@,
                        n as nat,
                        final(self)@,
                    )
                },
                Err(error) => stepped(old(self)@, buf@).outcome == Err::<
                    (nat, DecodedModel),
                    ErrorModel,
                >(error@),
            },
    {
        let current_byte: u8 = buf[0];
        proof {
            lemma_names();
        }
        let state = match self.state {
            Some(state) => state,
            None => return Ok((0, Event::Nothing)),
        };
        match state {
            State::Signature(i, bytes) => match self.read_signature(i, bytes, current_byte) {
                Ok(()) => Ok((1, Event::Nothing)),
                Err(error) => Err(error),
            },
            State::U32Byte3(value, word) => match self.finish_word(value, word, current_byte) {
                Ok(event) => Ok((1, event)),
                Err(error) => Err(error),
            },
            State::U32Byte2(value, word) => {
                proof {
                    lemma_third_byte(word, current_byte);
                }
                self.state = Some(State::U32Byte3(value, word | (current_byte as u32) << 8));
                Ok((1, Event::Nothing))
            },
            State::U32Byte1(value, word) => {
                proof {
                    lemma_second_byte(word, current_byte);
                }
                self.state = Some(State::U32Byte2(value, word | (current_byte as u32) << 16));
                Ok((1, Event::Nothing))
            },
            State::U32(value) => {
                proof {
                    lemma_first_byte(current_byte);
                }
                self.state = Some(State::U32Byte1(value, (current_byte as u32) << 24));
                Ok((1, Event::Nothing))
            },
            State::PartialChunk(type_str) => {
                if same_type(type_str, IDAT) {
                    self.state = Some(State::DecodeData(type_str, 0));
                    Ok((0, Event::Nothing))
                } else if self.current_chunk.1 == 0 {
                    // The chunk is complete.
                    match self.parse_chunk(type_str) {
                        Ok(event) => Ok((0, event)),
                        Err(error) => Err(error),
                    }
                } else {
                    // What does not fit is skipped.
                    self.state = Some(State::ReadChunk(type_str, true));
                    Ok((0, Event::Nothing))
                }
            },
            State::ReadChunk(type_str, clear) => {
                let taken = self.read_chunk(type_str, clear, buf);
                Ok((taken, Event::Nothing))
            },
            State::DecodeData(type_str, at) => match self.decode_data(type_str, at, current_byte) {
                Ok(event) => Ok((0, event)),
                Err(error) => Err(error),
            },
        }
    }

    /// Low level decoder interface.
    ///
    /// Allows to stream partial data to the encoder. Returns a tuple containing the
    /// bytes that have been consumed from the input buffer and the latest decoding
    /// result.
    pub fn update<'a>(&'a mut self, buf: &[u8]) -> (result: Result<
        (usize, Decoded<'a>),
        DecodingError,
    >)
        requires
            old(self).wf(),
        ensures
            final(self).wf(),
            final(self)@ == updated(old(self)@, buf@).after,
            report_of(result) == updated(old(self)@, buf@).outcome,
            result matches Ok((_, Decoded::ImageData(data))) ==> data_fits(
                old(self)@,
                data@.len(),
                final(self)@,
            ),
    {
        let len = buf.len();
        let mut at: usize = 0;
        let mut event = Event::Nothing;
        assert(buf@.skip(0) =~= buf@);
        while at < len && self.state.is_some()
            invariant_except_break
                event is Nothing,
                row_lacks(self@) == row_lacks(old(self)@),
                updated(old(self)@, buf@) == plus_taken(
                    at as nat,
                    updated(self@, buf@.skip(at as int)),
                ),
            invariant
                self.wf(),
                len == buf@.len(),
                at <= len,
            ensures
                event matches Event::ImageData(n) ==> data_fits(old(self)@, n as nat, self@),
                updated(old(self)@, buf@) == (Update {
                    after: self@,
                    outcome: Ok((at as nat, event.model(self.image_data@))),
                }),
            decreases len - at, rank(self@),
        {
            let rest = slice_subrange(buf, at, len);
            proof {
                assert(rest@ =~= buf@.skip(at as int));
                lemma_stepped(self@, rest@);
                lemma_taken(self@, rest@);
            }
            match self.next_state(rest) {
                Ok((taken, found)) => {
                    assert(rest@.skip(taken as int) =~= buf@.skip(at + taken));
                    at = at + taken;
                    event = found;
                    if !matches!(found, Event::Nothing) {
                        break;
                    }
                },
                Err(error) => return Err(error),
            }
        }
        let decoded = match event {
            Event::Nothing => Decoded::Nothing,
            Event::Header(width, height, depth, color_type, interlaced) => Decoded::Header(
                width,
                height,
                depth,
                color_type,
                interlaced,
            ),
            Event::ChunkBegin(length, type_str) => Decoded::ChunkBegin(length, type_str),
            Event::ChunkComplete(crc, type_str) => Decoded::ChunkComplete(crc, type_str),
            Event::ImageData(n) => {
                let data = slice_subrange(self.image_data.as_slice(), 0, n);
                assert(data@ =~= self.image_data@.take(n as int));
                Decoded::ImageData(data)
            },
            Event::ImageEnd => Decoded::ImageEnd,
        };
        Ok((at, decoded))
    }

    /// What is known of the image so far.
    pub fn info(&self) -> (info: Option<&Info>)
        ensures
            match info {
                Some(info) => self@.info == Some(info@),
                None => self@.info is None,
            },
    {
        self.info.as_ref()
    }

    /// Whether the meta data has been read through: after the header, the first IDAT chunk or the
    /// end of the image has been come to.
    pub fn meta_read(&self) -> (read: bool)
        ensures
            read == self@.meta_read,
    {
        self.meta_read
    }

    /// Whether the decoder has failed: it then takes no more bytes.
    pub fn has_failed(&self) -> (failed: bool)
        ensures
            failed == (self@.phase is Failed),
    {
        self.state.is_none()
    }
}

/// A copy of a run of bytes.
fn copied(bytes: &[u8]) -> (copy: Vec<u8>)
    ensures
        copy@ == bytes@,
{
    let mut copy: Vec<u8> = Vec::new();
    copy.extend_from_slice(bytes);
    assert(copy@ =~= bytes@);
    copy
}

/// The byte at a position, or an error past the end.
fn read_byte(bytes: &[u8], at: usize) -> (byte: Result<u8, DecodingError>)
    ensures
        match byte {
            Ok(byte) => at < bytes@.len() && byte == bytes@[at as int],
            Err(error) => at >= bytes@.len() && error@ == too_short(),
        },
{
    if at < bytes.len() {
        Ok(bytes[at])
    } else {
        Err(DecodingError::from(ReadError::UnexpectedEof))
    }
}

/// The number that the four bytes at a position stand for, or an error past the end.
fn read_be32(bytes: &[u8], at: usize) -> (number: Result<u32, DecodingError>)
    requires
        at <= 0xFFFF,
    ensures
        match number {
            Ok(number) => at + 4 <= bytes@.len() && number == be32(
                bytes@.subrange(at as int, at + 4),
            ),
            Err(error) => at + 4 > bytes@.len() && error@ == too_short(),
        },
{
    let a: u8 = read_byte(bytes, at)?;
    let b: u8 = read_byte(bytes, at + 1)?;
    let c: u8 = read_byte(bytes, at + 2)?;
    let d: u8 = read_byte(bytes, at + 3)?;
    Ok((a as u32) * 0x100_0000 + (b as u32) * 0x1_0000 + (c as u32) * 0x100 + (d as u32))
}

} // verus!
