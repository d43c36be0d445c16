//! The reader: rows of an image out of the bytes of a file.
//!
//! A reader does no input itself. Where it needs bytes that it does not have, it says so; it is
//! fed, and asked again.
use crate::chunk::{idat, lemma_names, same_type, IDAT};
use crate::decoder::{Decoded, Decoder};
use crate::error::{format_error, numbered, DecodingError, Unsupported};
use crate::expand::{expand_gray_u8, expand_paletted};
use crate::filter::{lemma_unfiltered_len, unfilter, FilterType};
use crate::model::{
    data_fits, inflate_left, is_bit_depth, lemma_empty_image_data, lemma_info_stays, lemma_taken,
    rank,
};
use crate::reader_model::{
    after_blocks, ends_after, fresh_reader, gave_up, info_known, lemma_ends_once, meta_over,
    meta_scan, next_block, out_length, out_type, overwritten, prepared, process, processed_row,
    raw_begun, read_meta, read_processed_row, read_raw_row, read_row, reader_sound, row_begun,
    row_ends, row_step, rows_fit, rows_grown, scan, zeros, BlockAnswer, ReaderModel, RowAnswer,
    StageAnswer,
};
use crate::traits::{HasParameters, Parameter};
use crate::types::{
    bytes_for, lemma_product_bound, ColorType, Info, InfoModel, Transformations, EXPAND_BITS,
};
use vstd::prelude::*;
use vstd::slice::slice_subrange;

verus! {

/// What an operation comes to.
#[derive(Debug)]
pub enum Progress<T> {
    /// It is done.
    Done(T),
    /// It needs more bytes of the file: feed the reader, then ask again.
    NeedInput,
}

/// PNG reader (mostly high-level interface)
///
/// Provides a high level that iterates over lines or whole images.
pub struct Reader {
    d: Decoder,
    /// Read buffer
    buf: Vec<u8>,
    /// Buffer position
    pos: usize,
    bpp: usize,
    rowlen: usize,
    /// Previous raw line
    prev: Vec<u8>,
    /// Current raw line
    current: Vec<u8>,
    /// Output transformations
    transform: Transformations,
    /// Processed line
    processed: Vec<u8>,
    /// Color type and bit depth that the row being processed was begun with
    pixels: Option<(ColorType, u8)>,
}

impl View for Reader {
    type V = ReaderModel;

    closed spec fn view(&self) -> ReaderModel {
        ReaderModel {
            d: self.d@,
            pending: self.buf@.skip(self.pos as int),
            bpp: self.bpp as nat,
            rowlen: self.rowlen as nat,
            prev: self.prev@,
            current: self.current@,
            transform: self.transform,
            processed: self.processed@,
            pixels: self.pixels,
        }
    }
}

impl Parameter<Reader> for Transformations {
    open spec fn sets(self, before: Reader, after: Reader) -> bool {
        &&& after@ == (ReaderModel { transform: self, ..before@ })
        &&& before.wf() ==> after.wf()
    }

    /// Sets what is to be made of the rows.
    fn set_param(self, this: &mut Reader) {
        this.transform = self;
    }
}

impl HasParameters for Reader {

}

/// The answer that a returned block stands for.
pub open spec fn block_answer(
    result: Result<Progress<Option<Decoded<'_>>>, DecodingError>,
) -> BlockAnswer {
    match result {
        Ok(Progress::NeedInput) => BlockAnswer::NeedInput,
        Ok(Progress::Done(None)) => BlockAnswer::End,
        Ok(Progress::Done(Some(decoded))) => BlockAnswer::Block(decoded@),
        Err(error) => BlockAnswer::Failed(error@),
    }
}

/// Free function form of [`Reader::decode_next`].
fn decode_next<'a>(d: &'a mut Decoder, pos: &mut usize, buf: &Vec<u8>) -> (result: Result<
    Progress<Option<Decoded<'a>>>,
    DecodingError,
>)
    requires
        old(d).wf(),
        old(d)@.phase !is Failed,
        *old(pos) <= buf@.len(),
    ensures
        final(d).wf(),
        *final(pos) <= buf@.len(),
        ({
            let block = next_block(old(d)@, buf@.skip(*old(pos) as int));
            &&& final(d)@ == block.d
            &&& buf@.skip(*final(pos) as int) == block.pending
            &&& block_answer(result) == block.answer
        }),
        result matches Ok(Progress::Done(Some(Decoded::ImageData(data)))) ==> data_fits(
            old(d)@,
            data@.len(),
            final(d)@,
        ),
{
    let len = buf.len();
    if *pos == len {
        return Ok(Progress::NeedInput);
    }
    let rest = slice_subrange(buf.as_slice(), *pos, len);
    proof {
        assert(rest@ =~= buf@.skip(*pos as int));
        lemma_taken(d@, rest@);
        assert forall|n: int| 0 <= n <= rest@.len() implies #[trigger] rest@.skip(n) == buf@.skip(
            *pos + n,
        ) by {
            assert(rest@.skip(n) =~= buf@.skip(*pos + n));
        }
    }
    match d.update(rest) {
        Err(error) => Err(error),
        Ok((taken, Decoded::Nothing)) => {
            *pos = *pos + taken;
            Ok(Progress::NeedInput)
        },
        Ok((_, Decoded::ImageEnd)) => Ok(Progress::Done(None)),
        Ok((taken, decoded)) => {
            *pos = *pos + taken;
            Ok(Progress::Done(Some(decoded)))
        },
    }
}

impl Reader {
    /// The fields hold together.
    pub closed spec fn fields_wf(&self) -> bool {
        &&& self.d.wf()
        &&& self.pos <= self.buf@.len()
    }

    /// The reader is in a state that reading can lead to.
    pub open spec fn wf(&self) -> bool {
        &&& self.fields_wf()
        &&& reader_sound(self@)
    }

    /// Creates a new PNG reader
    pub fn new() -> (reader: Reader)
        ensures
            reader.wf(),
            reader@.transform.bits_spec() == EXPAND_BITS,
            reader@ == fresh_reader(reader@.transform),
    {
        let reader = Reader {
            d: Decoder::new(),
            buf: Vec::new(),
            pos: 0,
            bpp: 0,
            rowlen: 0,
            prev: Vec::new(),
            current: Vec::new(),
            transform: Transformations::expand(),
            processed: Vec::new(),
            pixels: None,
        };
        assert(reader@ =~~= fresh_reader(reader@.transform));
        reader
    }

    /// Hands the reader the next bytes of the file.
    pub fn feed(&mut self, bytes: &[u8])
        requires
            old(self).wf(),
        ensures
            final(self).wf(),
            final(self)@ == (ReaderModel { pending: old(self)@.pending + bytes@, ..old(self)@ }),
    {
        let ghost before = self@;
        let len = self.buf.len();
        let mut buf: Vec<u8> = Vec::new();
        buf.extend_from_slice(slice_subrange(self.buf.as_slice(), self.pos, len));
        buf.extend_from_slice(bytes);
        self.buf = buf;
        self.pos = 0;
        assert(self@.pending =~= before.pending + bytes@);
    }

    /// Tells the reader that the bytes it needs could not be read: the next row is begun anew, with
    /// what has been read of it.
    pub fn input_failed(&mut self)
        requires
            old(self).wf(),
        ensures
            final(self).wf(),
            final(self)@ == gave_up(old(self)@),
    {
        self.pixels = None;
    }

    /// Whether decoding has failed: there is then nothing more to decode.
    pub fn has_failed(&self) -> (failed: bool)
        ensures
            failed == (self@.d.phase is Failed),
    {
        self.d.has_failed()
    }

    /// Returns the next decoded block (low-level)
    pub fn decode_next<'a>(&'a mut self) -> (result: Result<
        Progress<Option<Decoded<'a>>>,
        DecodingError,
    >)
        requires
            old(self).wf(),
            old(self)@.d.phase !is Failed,
        ensures
            final(self).wf(),
            ({
                let block = next_block(old(self)@.d, old(self)@.pending);
                &&& final(self)@ == (ReaderModel {
                    d: block.d,
                    pending: block.pending,
                    ..old(self)@
                })
                &&& block_answer(result) == block.answer
            }),
            result matches Ok(Progress::Done(Some(Decoded::ImageData(data)))) ==> data_fits(
                old(self)@.d,
                data@.len(),
                final(self)@.d,
            ),
            result is Ok ==> final(self)@.d.phase !is Failed,
    {
        proof {
            lemma_taken(self.d@, self@.pending);
            lemma_info_stays(self.d@, self@.pending);
        }
        decode_next(&mut self.d, &mut self.pos, &self.buf)
    }

    /// Allocates the processed row, the row before, and notes the sizes of rows and pixels. Nothing
    /// is done where a row is longer than the address space.
    fn allocate_out_buf(&mut self) -> (fits: bool)
        requires
            old(self).wf(),
            old(self)@.d.info is Some,
        ensures
            final(self).wf(),
            fits == rows_fit(old(self)@.d.info->0, old(self)@.transform),
            final(self)@ == (if fits {
                prepared(old(self)@, old(self)@.d.info->0)
            } else {
                old(self)@
            }),
    {
        let info = match self.d.info() {
            Some(info) => info,
            None => return false,
        };
        let length: u64 = out_row_length(info, self.transform);
        let rowlen: u64 = info.raw_row_length();
        if length > usize::MAX as u64 || rowlen > usize::MAX as u64 {
            return false;
        }
        proof {
            lemma_bytes_per_pixel(info@);
        }
        self.bpp = info.bytes_per_pixel();
        self.rowlen = rowlen as usize;
        self.prev = vec![0; rowlen as usize];
        self.processed = vec![0; length as usize];
        proof {
            assert(self.prev@ =~= zeros(rowlen as nat));
            assert(self.processed@ =~= zeros(length as nat));
            assert(self@ =~~= prepared(old(self)@, old(self)@.d.info->0));
        }
        true
    }

    /// Reads the blocks that are left of the meta data: whether all are read.
    fn scan_meta_data(&mut self) -> (result: Result<Progress<()>, DecodingError>)
        requires
            old(self).wf(),
        ensures
            final(self).wf(),
            ({
                let found = meta_scan(old(self)@.d, old(self)@.pending);
                &&& final(self)@ == (ReaderModel {
                    d: found.d,
                    pending: found.pending,
                    ..old(self)@
                })
                &&& stage_answer(result) == found.answer
            }),
            result is Ok && old(self)@.d.phase !is Failed ==> final(self)@.d.phase !is Failed,
    {
        if self.d.has_failed() || self.d.meta_read() {
            return Ok(Progress::Done(()));
        }
        let ghost before = self@;
        proof {
            lemma_names();
        }
        loop
            invariant
                scan(before.d, before.pending) == scan(self@.d, self@.pending),
                self.wf(),
                self@.d.phase !is Failed,
                self@ == (ReaderModel { d: self@.d, pending: self@.pending, ..before }),
                IDAT@ == idat(),
                before == old(self)@,
                !meta_over(before.d),
            decreases self@.pending.len(), rank(self@.d),
        {
            proof {
                lemma_taken(self@.d, self@.pending);
            }
            let found = match self.decode_next() {
                Err(error) => return Err(error),
                Ok(Progress::NeedInput) => return Ok(Progress::NeedInput),
                Ok(Progress::Done(None)) => true,
                Ok(Progress::Done(Some(Decoded::ChunkBegin(_, type_str)))) => same_type(
                    type_str,
                    IDAT,
                ),
                Ok(Progress::Done(Some(Decoded::ImageData(_)))) => true,
                Ok(Progress::Done(Some(_))) => false,
            };
            if found {
                return Ok(Progress::Done(()));
            }
        }
    }

    /// Reads all meta data until the first IDAT chunk, without handing it out.
    fn read_meta_data(&mut self) -> (result: Result<Progress<()>, DecodingError>)
        requires
            old(self).wf(),
        ensures
            final(self).wf(),
            final(self)@ == read_meta(old(self)@).0,
            stage_answer(result) == read_meta(old(self)@).1,
            result matches Ok(Progress::Done(_)) ==> info_known(final(self)@),
            result is Ok && old(self)@.d.phase !is Failed ==> final(self)@.d.phase !is Failed,
    {
        if self.rowlen > 0 {
            return Ok(Progress::Done(()));
        }
        match self.scan_meta_data() {
            Err(error) => return Err(error),
            Ok(Progress::NeedInput) => return Ok(Progress::NeedInput),
            Ok(Progress::Done(())) => {},
        }
        if self.d.info().is_none() {
            return Err(format_error("IHDR chunk missing"));
        }
        if self.allocate_out_buf() {
            Ok(Progress::Done(()))
        } else {
            Err(DecodingError::Unsupported(Unsupported::RowLength))
        }
    }

    /// Reads all meta data until the first IDAT chunk
    ///
    /// Once that is done, nothing more is read here. Where decoding has failed before, what is
    /// known of the image is all there is.
    pub fn read_info<'a>(&'a mut self) -> (result: Result<Progress<&'a Info>, DecodingError>)
        requires
            old(self).wf(),
        ensures
            final(self).wf(),
            final(self)@ == read_meta(old(self)@).0,
            match result {
                Ok(Progress::Done(info)) => {
                    &&& read_meta(old(self)@).1 is Ready
                    &&& final(self)@.d.info == Some(info@)
                    &&& final(self)@.rowlen > 0
                    &&& !info_known(old(self)@) ==> final(self)@.rowlen == info@.raw_row_length()
                },
                Ok(Progress::NeedInput) => read_meta(old(self)@).1 is NeedInput,
                Err(error) => read_meta(old(self)@).1 == StageAnswer::Failed(error@),
            },
            result is Ok && old(self)@.d.phase !is Failed ==> final(self)@.d.phase !is Failed,
    {
        match self.read_meta_data() {
            Err(error) => Err(error),
            Ok(Progress::NeedInput) => Ok(Progress::NeedInput),
            Ok(Progress::Done(())) => match self.d.info() {
                Some(info) => Ok(Progress::Done(info)),
                None => Ok(Progress::NeedInput),
            },
        }
    }

    /// Returns the color type and the number of bits per sample of the data returned by
    /// `Reader::next_row`.
    ///
    /// Gray rows of 16 bits a sample that are expanded are announced with eight bits: only the
    /// first half of such a row is handed out.
    pub fn color_type(&mut self) -> (result: Result<Progress<(ColorType, u8)>, DecodingError>)
        requires
            old(self).wf(),
        ensures
            final(self).wf(),
            final(self)@ == read_meta(old(self)@).0,
            match result {
                Ok(Progress::Done(kind)) => {
                    &&& read_meta(old(self)@).1 is Ready
                    &&& final(self)@.d.info is Some
                    &&& kind == out_type(final(self)@.d.info->0, old(self)@.transform)
                },
                Ok(Progress::NeedInput) => read_meta(old(self)@).1 is NeedInput,
                Err(error) => read_meta(old(self)@).1 == StageAnswer::Failed(error@),
            },
            result is Ok && old(self)@.d.phase !is Failed ==> final(self)@.d.phase !is Failed,
    {
        let t = self.transform;
        let info = match self.read_info() {
            Err(error) => return Err(error),
            Ok(Progress::NeedInput) => return Ok(Progress::NeedInput),
            Ok(Progress::Done(info)) => info,
        };
        let has_trns = info.trns.is_some();
        let kind = if t.is_identity() || !t.contains(Transformations::expand()) {
            (info.color_type, info.bit_depth)
        } else {
            match info.color_type {
                ColorType::Grayscale if has_trns => (ColorType::GrayscaleAlpha, 8),
                ColorType::Grayscale => (ColorType::Grayscale, 8),
                ColorType::GrayscaleAlpha => (ColorType::GrayscaleAlpha, 8),
                ColorType::Indexed if has_trns => (ColorType::RGBA, 8),
                ColorType::Indexed => (ColorType::RGB, 8),
                ColorType::RGB if has_trns => (ColorType::RGBA, 8),
                ct => (ct, info.bit_depth),
            }
        };
        Ok(Progress::Done(kind))
    }

    /// Reads a row, once the meta data is known: whether there was one. It is then the row before.
    fn read_current_row(&mut self) -> (result: Result<Progress<bool>, DecodingError>)
        requires
            old(self).wf(),
            old(self)@.d.phase !is Failed,
        ensures
            final(self).wf(),
            exists|blocks: nat| ends_after(old(self)@, blocks),
            final(self)@ == read_row(old(self)@).0,
            row_answer(result) == read_row(old(self)@).1,
            result is Ok ==> final(self)@.d.phase !is Failed,
            row_answer(result) is Row ==> 1 <= final(self)@.prev.len() == final(self)@.rowlen,
            old(self)@.d.info is Some ==> final(self)@.d.info is Some,
    {
        let ghost before = self@;
        let ghost mut blocks: nat = 0;
        loop
            invariant
                self.wf(),
                self@.d.phase !is Failed,
                before == old(self)@,
                self@ == after_blocks(before, blocks),
                forall|earlier: nat|
                    earlier < blocks ==> row_step(#[trigger] after_blocks(before, earlier)).1
                        is Again,
                old(self)@.d.info is Some ==> self@.d.info is Some,
            decreases
                    usize::MAX - self@.current.len(),
                    self@.pending.len(),
                    rank(self@.d),
                    inflate_left(self@.d),
        {
            let ghost from = self@;
            proof {
                lemma_taken(from.d, from.pending);
                lemma_info_stays(from.d, from.pending);
            }
            let done = match decode_next(&mut self.d, &mut self.pos, &self.buf) {
                Err(error) => Err(error),
                Ok(Progress::NeedInput) => Ok(Some(Progress::NeedInput)),
                Ok(Progress::Done(None)) => Ok(Some(Progress::Done(false))),
                Ok(Progress::Done(Some(Decoded::ImageData(data)))) => {
                    match grow_row(
                        &mut self.prev,
                        &mut self.current,
                        data,
                        self.bpp,
                        self.rowlen,
                    ) {
                        Err(error) => Err(error),
                        Ok(true) => Ok(Some(Progress::Done(true))),
                        Ok(false) => Ok(None),
                    }
                },
                Ok(Progress::Done(Some(_))) => Ok(None),
            };
            assert(self@ =~~= row_step(from).0);
            match done {
                Err(error) => {
                    proof {
                        assert(ends_after(before, blocks));
                        lemma_ends_once(before, blocks);
                    }
                    return Err(error);
                },
                Ok(Some(answer)) => {
                    proof {
                        assert(ends_after(before, blocks));
                        lemma_ends_once(before, blocks);
                    }
                    return Ok(answer);
                },
                Ok(None) => {},
            }
            proof {
                lemma_empty_image_data(from.d, from.pending);
                assert(self.current@.len() == self.current.len());
                blocks = blocks + 1;
            }
        }
    }

    /// Returns the next raw row of the image
    pub fn next_raw_row<'a>(&'a mut self) -> (result: Result<
        Progress<Option<&'a [u8]>>,
        DecodingError,
    >)
        requires
            old(self).wf(),
            old(self)@.d.phase !is Failed,
        ensures
            final(self).wf(),
            final(self)@ == read_raw_row(old(self)@).0,
            match result {
                Ok(Progress::Done(Some(row))) => {
                    &&& read_raw_row(old(self)@).1 is Row
                    &&& row@ == final(self)@.prev.skip(1)
                    &&& row@.len() == final(self)@.rowlen - 1
                },
                Ok(Progress::Done(None)) => read_raw_row(old(self)@).1 is End,
                Ok(Progress::NeedInput) => read_raw_row(old(self)@).1 is NeedInput,
                Err(error) => read_raw_row(old(self)@).1 == RowAnswer::Failed(error@),
            },
            read_meta(old(self)@).1 is Ready ==> row_ends(raw_begun(old(self)@)),
            result is Ok ==> final(self)@.d.phase !is Failed,
    {
        match self.read_meta_data() {
            Err(error) => return Err(error),
            Ok(Progress::NeedInput) => return Ok(Progress::NeedInput),
            Ok(Progress::Done(())) => {},
        }
        self.pixels = None;
        match self.read_current_row() {
            Err(error) => Err(error),
            Ok(Progress::NeedInput) => Ok(Progress::NeedInput),
            Ok(Progress::Done(false)) => Ok(Progress::Done(None)),
            Ok(Progress::Done(true)) => {
                let len = self.prev.len();
                let row = slice_subrange(self.prev.as_slice(), 1, len);
                assert(row@ =~= self.prev@.skip(1));
                Ok(Progress::Done(Some(row)))
            },
        }
    }

    /// Returns the next processed row of the image
    ///
    /// Of a gray row of 16 bits a sample that is expanded, only the first half is handed out.
    pub fn next_row<'a>(&'a mut self) -> (result: Result<
        Progress<Option<&'a [u8]>>,
        DecodingError,
    >)
        requires
            old(self).wf(),
            old(self)@.d.phase !is Failed,
        ensures
            final(self).wf(),
            final(self)@ == read_processed_row(old(self)@).0,
            match result {
                Ok(Progress::Done(Some(row))) => {
                    &&& read_processed_row(old(self)@).1 is Row
                    &&& row@ == (if old(self)@.transform.is_identity_spec() {
                        final(self)@.prev.skip(1)
                    } else {
                        final(self)@.processed
                    })
                },
                Ok(Progress::Done(None)) => read_processed_row(old(self)@).1 is End,
                Ok(Progress::NeedInput) => read_processed_row(old(self)@).1 is NeedInput,
                Err(error) => read_processed_row(old(self)@).1 == RowAnswer::Failed(error@),
            },
            read_meta(old(self)@).1 is Ready ==> row_ends(row_begun(old(self)@)),
            result is Ok ==> final(self)@.d.phase !is Failed,
    {
        if self.transform.is_identity() {
            return self.next_raw_row();
        }
        let (color_type, bit_depth) = match self.read_info() {
            Err(error) => return Err(error),
            Ok(Progress::NeedInput) => return Ok(Progress::NeedInput),
            Ok(Progress::Done(info)) => (info.color_type, info.bit_depth),
        };
        let pixels = match self.pixels {
            Some(pixels) => pixels,
            None => (color_type, bit_depth),
        };
        self.pixels = Some(pixels);
        let got_next = match self.read_current_row() {
            Err(error) => {
                self.pixels = None;
                return Err(error);
            },
            Ok(Progress::NeedInput) => return Ok(Progress::NeedInput),
            Ok(Progress::Done(got_next)) => got_next,
        };
        self.pixels = None;
        if !got_next {
            return Ok(Progress::Done(None));
        }
        let ghost read = self@;
        let len = self.prev.len();
        let row = slice_subrange(self.prev.as_slice(), 1, len);
        assert(row@ =~= self.prev@.skip(1));
        let made = match self.d.info() {
            Some(info) => process_row(
                &mut self.processed,
                row,
                pixels.0,
                pixels.1,
                info,
                self.transform,
            ),
            None => Ok(()),
        };
        assert(self@ == process(read, pixels).0);
        match made {
            Ok(()) => Ok(Progress::Done(Some(self.processed.as_slice()))),
            Err(what) => Err(DecodingError::Unsupported(what)),
        }
    }
}

/// The answer that a returned stage stands for.
spec fn stage_answer(result: Result<Progress<()>, DecodingError>) -> StageAnswer {
    match result {
        Ok(Progress::NeedInput) => StageAnswer::NeedInput,
        Ok(Progress::Done(_)) => StageAnswer::Ready,
        Err(error) => StageAnswer::Failed(error@),
    }
}

/// The answer that a returned row stands for.
spec fn row_answer(result: Result<Progress<bool>, DecodingError>) -> RowAnswer {
    match result {
        Ok(Progress::NeedInput) => RowAnswer::NeedInput,
        Ok(Progress::Done(false)) => RowAnswer::End,
        Ok(Progress::Done(true)) => RowAnswer::Row,
        Err(error) => RowAnswer::Failed(error@),
    }
}

/// Adds bytes to the current row: whether that completes it. A row that is complete is freed of its
/// filter and becomes the row before.
pub fn grow_row(
    prev: &mut Vec<u8>,
    current: &mut Vec<u8>,
    data: &[u8],
    bpp: usize,
    rowlen: usize,
) -> (result: Result<bool, DecodingError>)
    requires
        rowlen > 0 ==> bpp >= 1 && old(prev)@.len() == rowlen,
    ensures
        (final(prev)@, final(current)@, match result {
            Ok(true) => RowAnswer::Row,
            Ok(false) => RowAnswer::Again,
            Err(error) => RowAnswer::Failed(error@),
        }) == rows_grown(old(prev)@, old(current)@, data@, bpp as nat, rowlen as nat),
        final(prev)@.len() == old(prev)@.len(),
{
    current.extend_from_slice(data);
    let ghost raw = current@;
    assert(raw =~= old(current)@ + data@);
    if rowlen == 0 || current.len() != rowlen {
        return Ok(false);
    }
    let code = current[0];
    match FilterType::from_u8(code) {
        Some(filter) => {
            unfilter(filter, bpp, prev.as_slice(), current, 1);
            proof {
                assert(raw.take(1) =~= seq![code]);
                lemma_unfiltered_len(filter, bpp as int, old(prev)@.skip(1), raw.skip(1));
            }
            std::mem::swap(prev, current);
            current.clear();
            Ok(true)
        },
        None => Err(DecodingError::Format(numbered("invalid filter method (", code))),
    }
}

/// Makes a processed row of a raw row, in the place of `buf`. Where that cannot be done, the raw
/// row is left there.
pub fn process_row(
    buf: &mut Vec<u8>,
    row: &[u8],
    color_type: ColorType,
    bit_depth: u8,
    info: &Info,
    transform: Transformations,
) -> (result: Result<(), Unsupported>)
    ensures
        match processed_row(old(buf)@, row@, color_type, bit_depth, info@, transform) {
            Ok(made) => result is Ok && final(buf)@ == made,
            Err(what) => result == Err::<(), Unsupported>(what) && final(buf)@ == overwritten(
                old(buf)@,
                row@,
            ),
        },
{
    let ghost target = buf@;
    let mut i: usize = 0;
    while i < buf.len() && i < row.len()
        invariant
            buf@.len() == target.len(),
            i <= target.len(),
            i <= row@.len(),
            forall|j: int| 0 <= j < i ==> buf@[j] == row@[j],
            forall|j: int| i <= j < target.len() ==> buf@[j] == target[j],
        decreases buf@.len() - i,
    {
        buf[i] = row[i];
        i = i + 1;
    }
    assert(buf@ =~= overwritten(target, row@));
    if !transform.contains(Transformations::expand()) {
        return Ok(());
    }
    match color_type {
        ColorType::Indexed => expand_paletted(buf, info),
        ColorType::Grayscale | ColorType::GrayscaleAlpha => if bit_depth < 8 {
            expand_gray_u8(buf, info)
        } else {
            Ok(())
        },
        ColorType::RGB | ColorType::RGBA => Ok(()),
    }
}

/// A pixel of a bit depth that images have takes at least a byte.
proof fn lemma_bytes_per_pixel(info: InfoModel)
    requires
        is_bit_depth(info.bit_depth),
    ensures
        info.bytes_per_pixel() >= 1,
{
    let samples = info.color_type.samples_spec();
    let depth = bytes_for(info.bit_depth as nat);
    assert(samples * depth >= 1) by (nonlinear_arith)
        requires
            samples >= 1,
            depth >= 1,
    ;
}

/// The number of bytes in a processed row.
fn out_row_length(info: &Info, t: Transformations) -> (length: u64)
    ensures
        length == out_length(info@, t),
{
    let trns = info.trns.is_some();
    let bits: u64 = if !t.contains(Transformations::expand()) {
        info.bits_per_pixel() as u64
    } else {
        match info.color_type {
            ColorType::Indexed if trns => 4 * 8,
            ColorType::Indexed => 3 * 8,
            ColorType::RGB if trns => 4 * 8,
            ColorType::Grayscale if trns => 2 * 8,
            ColorType::Grayscale => 1 * 8,
            ColorType::GrayscaleAlpha => 2 * 8,
            _ => info.bits_per_pixel() as u64,
        }
    };
    proof {
        lemma_product_bound(bits as nat, 1020, info.width as nat, 0xFFFF_FFFF);
    }
    (bits * (info.width as u64) + 7) / 8
}

} // verus!
