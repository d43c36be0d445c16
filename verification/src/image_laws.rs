//! Laws of whole images: how much image data a file gives, and how many rows.
use crate::decoder_laws::{lemma_update_delivers, written_by};
use crate::error::{ErrorModel, Unsupported};
use crate::filter::{filter_type_of, lemma_unfiltered_len, unfiltered};
use crate::model::{data_fits, info_sound, DecodedModel};
use crate::reader_laws::{
    before_image, block_data, blocks_data, in_step, lemma_blocks_keep, lemma_expansion_keeps_length,
    lemma_meta_leaves_image_data, lemma_stays_in_step,
};
use crate::reader_model::{
    after_blocks, ends_after, first_beyond, info_known, lemma_ends_once, next_block, out_length,
    overwritten, palette_channels, processed_row, raw_begun, read_meta, read_processed_row,
    read_raw_row, read_row, row_begun, row_ends, row_pixels, row_step, rows_fit, zeros,
    BlockAnswer, ReaderModel, RowAnswer,
};
use crate::types::{ColorType, InfoModel, Transformations};
use crate::utils::{lemma_sample_bound, room_for, sample, sample_mask};
use vstd::prelude::*;

verus! {

/// The reader after a number of decoded blocks.
pub open spec fn after_decoding(r: ReaderModel, blocks: nat) -> ReaderModel
    decreases blocks,
{
    if blocks == 0 {
        r
    } else {
        let before = after_decoding(r, (blocks - 1) as nat);
        let block = next_block(before.d, before.pending);
        ReaderModel { d: block.d, pending: block.pending, ..before }
    }
}

/// The image data of a number of decoded blocks.
pub open spec fn decoded_data(r: ReaderModel, blocks: nat) -> Seq<u8>
    decreases blocks,
{
    if blocks == 0 {
        Seq::empty()
    } else {
        let before = (blocks - 1) as nat;
        decoded_data(r, before) + block_data(after_decoding(r, before))
    }
}

/// None of a number of decoded blocks is an error.
pub open spec fn decodes(r: ReaderModel, blocks: nat) -> bool {
    forall|earlier: nat|
        earlier < blocks ==> {
            let before = #[trigger] after_decoding(r, earlier);
            next_block(before.d, before.pending).answer !is Failed
        }
}

/// The image data of decoded blocks is what the decompressor wrote meanwhile, in order and once.
pub proof fn lemma_blocks_deliver(r: ReaderModel, blocks: nat)
    requires
        decodes(r, blocks),
    ensures
        written_by(after_decoding(r, blocks).d.calls) == written_by(r.d.calls) + decoded_data(
            r,
            blocks,
        ),
    decreases blocks,
{
    let start = written_by(r.d.calls);
    if blocks == 0 {
        assert(start + decoded_data(r, blocks) =~= start);
    } else {
        let before = after_decoding(r, (blocks - 1) as nat);
        lemma_blocks_deliver(r, (blocks - 1) as nat);
        assert(next_block(before.d, before.pending).answer !is Failed);
        lemma_update_delivers(before.d, before.pending);
        let data = block_data(before);
        let so_far = decoded_data(r, (blocks - 1) as nat);
        assert(written_by(before.d.calls) + Seq::<u8>::empty() =~= written_by(before.d.calls));
        assert((start + so_far) + data =~= start + (so_far + data));
        assert(written_by(after_decoding(r, blocks).d.calls) == written_by(before.d.calls) + data);
    }
}

/// Of a file that is read from its start, the blocks after the meta data deliver all that the
/// decompressor wrote: reading the meta data loses none of the image data. Where that is as much as
/// the rows of the image take, the image data of the blocks adds up to just that.
pub proof fn lemma_all_image_data_is_delivered(r: ReaderModel, blocks: nat)
    requires
        !info_known(r),
        before_image(r.d),
        r.d.calls.len() == 0,
        r.d.row_left == 0,
        r.current.len() == 0,
        read_meta(r).1 is Ready,
        decodes(read_meta(r).0, blocks),
    ensures
        ({
            let start = read_meta(r).0;
            let written = written_by(after_decoding(start, blocks).d.calls);
            let expected = start.d.info->0.raw_bytes();
            &&& decoded_data(start, blocks) == written
            &&& written.len() == expected ==> decoded_data(start, blocks).len() == expected
        }),
{
    lemma_meta_leaves_image_data(r);
    let start = read_meta(r).0;
    lemma_blocks_deliver(start, blocks);
    assert(written_by(start.d.calls) + decoded_data(start, blocks) =~= decoded_data(start, blocks));
}

/// Reading rows goes through the same blocks as decoding does.
pub proof fn lemma_rows_read_all_blocks(r: ReaderModel, blocks: nat)
    ensures
        after_blocks(r, blocks).d == after_decoding(r, blocks).d,
        after_blocks(r, blocks).pending == after_decoding(r, blocks).pending,
        blocks_data(r, blocks) == decoded_data(r, blocks),
    decreases blocks,
{
    if blocks > 0 {
        lemma_rows_read_all_blocks(r, (blocks - 1) as nat);
    }
}

/// The number of rows that a number of blocks complete.
pub open spec fn rows_in(r: ReaderModel, blocks: nat) -> nat
    decreases blocks,
{
    if blocks == 0 {
        0
    } else {
        let before = (blocks - 1) as nat;
        rows_in(r, before) + (if row_step(after_blocks(r, before)).1 is Row {
            1nat
        } else {
            0nat
        })
    }
}

/// The next block has what `Decoder::update` promises of image data, that it lies inside one row,
/// and does not change the length of a row.
pub open spec fn block_sound(r: ReaderModel) -> bool {
    let block = next_block(r.d, r.pending);
    &&& block.answer matches BlockAnswer::Block(DecodedModel::ImageData(data)) ==> data_fits(
        r.d,
        data.len(),
        block.d,
    )
    &&& block.d.info matches Some(info) && info.raw_row_length() == r.rowlen
}

/// A number of blocks are read without an error, and each is sound.
pub open spec fn reads_on(r: ReaderModel, blocks: nat) -> bool {
    forall|earlier: nat|
        earlier < blocks ==> {
            let before = #[trigger] after_blocks(r, earlier);
            let answer = row_step(before).1;
            (answer is Again || answer is Row) && block_sound(before)
        }
}

/// A number of blocks are read without an error, and then comes the end of the image.
pub open spec fn reaches_end(r: ReaderModel, blocks: nat) -> bool {
    reads_on(r, blocks) && row_step(after_blocks(r, blocks)).1 is End
}

/// The image data of a number of blocks, behind what is held of the current row.
pub open spec fn image(r: ReaderModel, blocks: nat) -> Seq<u8> {
    r.current + blocks_data(r, blocks)
}

/// The image data of a block is added to the current row, or completes it.
proof fn lemma_block_adds(r: ReaderModel)
    requires
        in_step(r),
        block_sound(r),
        row_step(r).1 is Again || row_step(r).1 is Row,
    ensures
        ({
            let (after, answer) = row_step(r);
            let raw = r.current + block_data(r);
            &&& in_step(after)
            &&& after.rowlen == r.rowlen
            &&& after.bpp == r.bpp
            &&& answer is Again ==> after.current == raw
            &&& answer is Row ==> after.current == Seq::<u8>::empty() && raw.len() == r.rowlen
        }),
{
    lemma_stays_in_step(r);
    assert(r.current + Seq::<u8>::empty() =~= r.current);
}

/// What is held of the current row is the image data behind the rows that are complete.
#[verifier::rlimit(40)]
proof fn lemma_current_is_the_rest(r: ReaderModel, blocks: nat)
    requires
        in_step(r),
        reads_on(r, blocks),
    ensures
        ({
            let after = after_blocks(r, blocks);
            &&& in_step(after)
            &&& after.rowlen == r.rowlen
            &&& after.bpp == r.bpp
            &&& 0 <= rows_in(r, blocks) * r.rowlen <= image(r, blocks).len()
            &&& after.current == image(r, blocks).skip((rows_in(r, blocks) * r.rowlen) as int)
        }),
    decreases blocks,
{
    if blocks == 0 {
        assert(image(r, 0).skip(0) =~= r.current);
    } else {
        let before = (blocks - 1) as nat;
        lemma_current_is_the_rest(r, before);
        let from = after_blocks(r, before);
        assert(block_sound(from));
        lemma_block_adds(from);
        let k = rows_in(r, before);
        let done = (k * r.rowlen) as int;
        let data = block_data(from);
        assert(image(r, blocks) =~= image(r, before) + data);
        assert(from.current + data =~= image(r, blocks).skip(done));
        assert((k + 1) * r.rowlen == k * r.rowlen + r.rowlen) by (nonlinear_arith);
        if row_step(from).1 is Row {
            assert(image(r, blocks).skip(done + r.rowlen) =~= Seq::<u8>::empty());
        } else {
            assert(after_blocks(r, blocks).current =~= image(r, blocks).skip(done));
        }
    }
}

/// The image data of fewer blocks comes first.
proof fn lemma_image_grows(r: ReaderModel, fewer: nat, blocks: nat)
    requires
        fewer <= blocks,
    ensures
        image(r, fewer).len() <= image(r, blocks).len(),
        image(r, blocks).take(image(r, fewer).len() as int) == image(r, fewer),
    decreases blocks,
{
    if fewer < blocks {
        let before = (blocks - 1) as nat;
        lemma_image_grows(r, fewer, before);
        let data = block_data(after_blocks(r, before));
        assert(image(r, blocks) =~= image(r, before) + data);
        assert(image(r, blocks).take(image(r, fewer).len() as int) =~= image(r, before).take(
            image(r, fewer).len() as int,
        ));
    } else {
        assert(image(r, blocks).take(image(r, fewer).len() as int) =~= image(r, fewer));
    }
}

/// The reader after a number of raw rows were asked for.
pub open spec fn after_raw_rows(r: ReaderModel, rows: nat) -> ReaderModel
    decreases rows,
{
    if rows == 0 {
        r
    } else {
        read_raw_row(after_raw_rows(r, (rows - 1) as nat)).0
    }
}

/// Blocks can be counted from any of them on.
proof fn lemma_blocks_add(r: ReaderModel, first: nat, more: nat)
    ensures
        after_blocks(after_blocks(r, first), more) == after_blocks(r, first + more),
    decreases more,
{
    if more > 0 {
        lemma_blocks_add(r, first, (more - 1) as nat);
    }
}

/// The block that completes the next row.
proof fn lemma_next_row_block(r: ReaderModel, from: nat, to: nat) -> (at: nat)
    requires
        reads_on(r, to),
        from <= to,
        rows_in(r, from) < rows_in(r, to),
    ensures
        from <= at < to,
        row_step(after_blocks(r, at)).1 is Row,
        rows_in(r, at) == rows_in(r, from),
        forall|i: nat|
            from <= i < at ==> row_step(#[trigger] after_blocks(r, i)).1 is Again,
    decreases to - from,
{
    let answer = row_step(after_blocks(r, from)).1;
    if answer is Row {
        from
    } else {
        assert(rows_in(r, from + 1) == rows_in(r, from));
        lemma_next_row_block(r, from + 1, to)
    }
}

/// Rows do not become fewer.
proof fn lemma_rows_grow(r: ReaderModel, from: nat, to: nat)
    requires
        from <= to,
    ensures
        rows_in(r, from) <= rows_in(r, to),
    decreases to - from,
{
    if from < to {
        lemma_rows_grow(r, from, (to - 1) as nat);
    }
}

/// Where no row is completed, no block completes one.
proof fn lemma_no_row_block(r: ReaderModel, from: nat, to: nat, at: nat)
    requires
        reads_on(r, to),
        from <= at < to,
        rows_in(r, from) == rows_in(r, to),
    ensures
        row_step(after_blocks(r, at)).1 is Again,
{
    lemma_rows_grow(r, from, at);
    lemma_rows_grow(r, at + 1, to);
    assert(row_step(after_blocks(r, at)).1 is Again || row_step(after_blocks(r, at)).1 is Row);
}

/// Reading a row from a block on ends with the first block that does not let it go on.
proof fn lemma_row_from(r: ReaderModel, from: nat, at: nat)
    requires
        from <= at,
        forall|i: nat|
            from <= i < at ==> row_step(#[trigger] after_blocks(r, i)).1 is Again,
        row_step(after_blocks(r, at)).1 !is Again,
    ensures
        row_ends(after_blocks(r, from)),
        read_row(after_blocks(r, from)) == row_step(after_blocks(r, at)),
{
    let start = after_blocks(r, from);
    let more = (at - from) as nat;
    lemma_blocks_add(r, from, more);
    assert forall|earlier: nat| earlier < more implies row_step(
        #[trigger] after_blocks(start, earlier),
    ).1 is Again by {
        lemma_blocks_add(r, from, earlier);
    }
    assert(ends_after(start, more));
    lemma_ends_once(start, more);
}

/// Where a number of rows have been asked for, the reader stands behind the block that completed
/// the last of them.
proof fn lemma_position(r: ReaderModel, blocks: nat, rows: nat) -> (at: nat)
    requires
        in_step(r),
        r.pixels is None,
        reads_on(r, blocks),
        rows <= rows_in(r, blocks),
    ensures
        at <= blocks,
        rows_in(r, at) == rows,
        after_raw_rows(r, rows) == after_blocks(r, at),
        after_blocks(r, at).pixels is None,
        after_blocks(r, at).rowlen == r.rowlen,
    decreases rows,
{
    if rows == 0 {
        0
    } else {
        let from = lemma_position(r, blocks, (rows - 1) as nat);
        let at = lemma_next_row_block(r, from, blocks);
        lemma_row_from(r, from, at);
        let start = after_blocks(r, from);
        assert(raw_begun(start) == start);
        lemma_blocks_keep(r, at + 1);
        at + 1
    }
}

/// A block that completes a row hands out what is held of it and its image data, freed of the
/// filter.
proof fn lemma_block_completes(r: ReaderModel)
    requires
        row_step(r).1 is Row,
    ensures
        ({
            let after = row_step(r).0;
            let raw = r.current + block_data(r);
            &&& raw.len() == r.rowlen
            &&& after.prev.len() == r.rowlen
            &&& filter_type_of(raw[0]) matches Some(filter)
            &&& after.prev.skip(1) == unfiltered(
                filter,
                r.bpp as int,
                r.prev.skip(1),
                raw.skip(1),
            )
        }),
{
    let raw = r.current + block_data(r);
    let filter = filter_type_of(raw[0])->0;
    let row = unfiltered(filter, r.bpp as int, r.prev.skip(1), raw.skip(1));
    lemma_unfiltered_len(filter, r.bpp as int, r.prev.skip(1), raw.skip(1));
    assert((seq![raw[0]] + row).skip(1) =~= row);
}

/// What is held of the current row and the image data of the block that completes it are a stretch
/// of the image data.
proof fn lemma_raw_is_stretch(r: ReaderModel, blocks: nat, at: nat)
    requires
        in_step(r),
        reads_on(r, blocks),
        at < blocks,
        row_step(after_blocks(r, at)).1 is Row,
    ensures
        ({
            let last = after_blocks(r, at);
            let start = (rows_in(r, at) * r.rowlen) as int;
            &&& 0 <= start
            &&& start + r.rowlen <= image(r, blocks).len()
            &&& last.current + block_data(last) == image(r, blocks).subrange(
                start,
                start + r.rowlen,
            )
        }),
{
    let last = after_blocks(r, at);
    let start = (rows_in(r, at) * r.rowlen) as int;
    let raw = last.current + block_data(last);
    assert(reads_on(r, at));
    lemma_current_is_the_rest(r, at);
    lemma_block_completes(last);
    lemma_image_grows(r, at + 1, blocks);
    let there = image(r, at + 1);
    assert(there =~= image(r, at) + block_data(last));
    assert(raw =~= there.skip(start));
    assert(image(r, blocks).subrange(start, start + r.rowlen) =~= raw) by {
        assert(there == image(r, blocks).take(there.len() as int));
    }
}

/// The row that is handed out where `raw` is its stretch of the image data, `above` the row before
/// it, and a pixel takes `bpp` bytes.
pub open spec fn row_of(raw: Seq<u8>, above: Seq<u8>, bpp: nat, row: Seq<u8>) -> bool {
    &&& row.len() == raw.len() - 1
    &&& filter_type_of(raw[0]) matches Some(filter)
    &&& row == unfiltered(filter, bpp as int, above, raw.skip(1))
}

/// The row that a block completes is its stretch of the image data, freed of its filter.
proof fn lemma_completed_row(r: ReaderModel, blocks: nat, from: nat, at: nat)
    requires
        in_step(r),
        reads_on(r, blocks),
        from <= at < blocks,
        rows_in(r, at) == rows_in(r, from),
        row_step(after_blocks(r, at)).1 is Row,
        forall|i: nat|
            from <= i < at ==> row_step(#[trigger] after_blocks(r, i)).1 is Again,
    ensures
        ({
            let start = (rows_in(r, from) * r.rowlen) as int;
            let raw = image(r, blocks).subrange(start, start + r.rowlen);
            &&& raw.len() == r.rowlen
            &&& row_of(
                raw,
                after_blocks(r, from).prev.skip(1),
                r.bpp,
                row_step(after_blocks(r, at)).0.prev.skip(1),
            )
        }),
{
    lemma_raw_is_stretch(r, blocks, at);
    lemma_block_completes(after_blocks(r, at));
    lemma_prev_stays(r, from, at);
    lemma_blocks_keep(r, at);
}

/// Each raw row is its stretch of the image data, freed of the filter that its first byte names,
/// whatever comes behind it: where a reader that is in step reads on for a number of blocks, it
/// gives at least as many rows as their image data has room for.
#[verifier::rlimit(40)]
pub proof fn lemma_row_is_its_stretch(r: ReaderModel, blocks: nat, rows: nat)
    requires
        in_step(r),
        r.pixels is None,
        reads_on(r, blocks),
        rows < image(r, blocks).len() / r.rowlen,
    ensures
        ({
            let asked = after_raw_rows(r, rows);
            let from = (rows * r.rowlen) as int;
            let raw = image(r, blocks).subrange(from, from + r.rowlen);
            &&& raw.len() == r.rowlen
            &&& read_raw_row(asked).1 is Row
            &&& row_ends(raw_begun(asked))
            &&& row_of(
                raw,
                asked.prev.skip(1),
                r.bpp,
                after_raw_rows(r, rows + 1).prev.skip(1),
            )
        }),
{
    lemma_whole_rows(r, blocks);
    let from = lemma_position(r, blocks, rows);
    let start = after_blocks(r, from);
    assert(raw_begun(start) == start);
    let at = lemma_next_row_block(r, from, blocks);
    lemma_row_from(r, from, at);
    lemma_completed_row(r, blocks, from, at);
    assert(read_raw_row(start) == row_step(after_blocks(r, at)));
    assert(after_raw_rows(r, rows + 1) == row_step(after_blocks(r, at)).0);
}

/// How many rows a file gives. Up to the end of the image, a reader that is in step gives as many
/// rows as its image data has room for, then the end; where the image data is that of the whole
/// image, as many rows as the image is high.
pub proof fn lemma_row_count(r: ReaderModel, blocks: nat, rows: nat)
    requires
        in_step(r),
        r.pixels is None,
        reaches_end(r, blocks),
    ensures
        ({
            let count = image(r, blocks).len() / r.rowlen;
            let asked = after_raw_rows(r, rows);
            &&& rows < count ==> read_raw_row(asked).1 is Row
            &&& rows == count ==> read_raw_row(asked).1 is End
            &&& rows <= count ==> row_ends(raw_begun(asked))
            &&& image(r, blocks).len() == r.d.info->0.raw_bytes() ==> count
                == r.d.info->0.height
        }),
{
    let total = image(r, blocks).len();
    let count = total / r.rowlen;
    lemma_whole_rows(r, blocks);
    let height = r.d.info->0.height as nat;
    assert(total == height * r.rowlen ==> count == height) by (nonlinear_arith)
        requires
            count == total / r.rowlen,
            r.rowlen > 0,
    ;
    if rows < count {
        lemma_row_is_its_stretch(r, blocks, rows);
    } else if rows == count {
        let from = lemma_position(r, blocks, rows);
        let start = after_blocks(r, from);
        assert(raw_begun(start) == start);
        assert forall|i: nat| from <= i < blocks implies row_step(
            #[trigger] after_blocks(r, i),
        ).1 is Again by {
            lemma_no_row_block(r, from, blocks, i);
        }
        lemma_row_from(r, from, blocks);
    }
}

/// A file that is read from its start, whose meta data has just been read.
pub open spec fn starts_file(r: ReaderModel) -> bool {
    &&& !info_known(r)
    &&& before_image(r.d)
    &&& r.d.calls.len() == 0
    &&& r.d.row_left == 0
    &&& r.current.len() == 0
    &&& r.pixels is None
    &&& read_meta(r).1 is Ready
}

/// The image data that rows are read from is what the decompressor wrote.
proof fn lemma_image_is_written(r: ReaderModel, blocks: nat)
    requires
        starts_file(r),
        reads_on(read_meta(r).0, blocks),
    ensures
        ({
            let start = read_meta(r).0;
            &&& in_step(start)
            &&& image(start, blocks) == written_by(after_blocks(start, blocks).d.calls)
        }),
{
    let start = read_meta(r).0;
    lemma_meta_leaves_image_data(r);
    assert forall|earlier: nat| earlier < blocks implies ({
        let before = #[trigger] after_decoding(start, earlier);
        next_block(before.d, before.pending).answer !is Failed
    }) by {
        lemma_rows_read_all_blocks(start, earlier);
        assert(block_sound(after_blocks(start, earlier)));
    }
    lemma_all_image_data_is_delivered(r, blocks);
    lemma_rows_read_all_blocks(start, blocks);
    assert(image(start, blocks) =~= blocks_data(start, blocks));
}

/// The raw rows of a file that is read from its start: a row is its stretch of what the
/// decompressor wrote, of as many bytes as a row of the image has, freed of its filter by the
/// pixels of the image and the row before it, where the first row has zeros before it.
pub proof fn lemma_raw_rows_of_a_file(r: ReaderModel, blocks: nat, rows: nat)
    requires
        starts_file(r),
        reads_on(read_meta(r).0, blocks),
        rows < written_by(after_blocks(read_meta(r).0, blocks).d.calls).len() / read_meta(
            r,
        ).0.d.info->0.raw_row_length(),
    ensures
        ({
            let start = read_meta(r).0;
            let info = start.d.info->0;
            let length = info.raw_row_length();
            let from = (rows * length) as int;
            let raw = written_by(after_blocks(start, blocks).d.calls).subrange(from, from + length);
            let above = if rows == 0 {
                zeros((length - 1) as nat)
            } else {
                after_raw_rows(start, rows).prev.skip(1)
            };
            &&& read_raw_row(after_raw_rows(start, rows)).1 is Row
            &&& row_of(
                raw,
                above,
                info.bytes_per_pixel(),
                after_raw_rows(start, rows + 1).prev.skip(1),
            )
            &&& after_raw_rows(start, rows + 1).prev.skip(1).len() == length - 1
        }),
{
    let start = read_meta(r).0;
    lemma_image_is_written(r, blocks);
    lemma_row_is_its_stretch(start, blocks, rows);
    assert(zeros(start.rowlen).skip(1) =~= zeros((start.rowlen - 1) as nat));
}

/// The processed rows of a file that is read from its start and whose image data is all there: as
/// many as the image is high, all of the same length, then the end, where each of them can be made.
pub proof fn lemma_rows_of_a_file(r: ReaderModel, blocks: nat, rows: nat)
    requires
        starts_file(r),
        !r.transform.is_identity_spec(),
        reaches_end(read_meta(r).0, blocks),
        ({
            let start = read_meta(r).0;
            let info = start.d.info->0;
            &&& written_by(after_blocks(start, blocks).d.calls).len() == info.raw_bytes()
            &&& rows <= info.height
            &&& forall|earlier: nat|
                earlier <= rows && earlier < info.height ==> row_can_be_made(
                    #[trigger] after_rows(start, earlier),
                )
        }),
    ensures
        ({
            let start = read_meta(r).0;
            let info = start.d.info->0;
            let asked = after_rows(start, rows);
            &&& rows < info.height ==> read_processed_row(asked).1 is Row
            &&& rows == info.height ==> read_processed_row(asked).1 is End
            &&& after_rows(start, rows + 1).processed.len() == out_length(info, r.transform)
        }),
{
    let start = read_meta(r).0;
    lemma_image_is_written(r, blocks);
    lemma_row_count(start, blocks, 0);
    lemma_processed_row_count(start, blocks, rows);
}

/// Up to the end of a row, the row before stays.
proof fn lemma_prev_stays(r: ReaderModel, from: nat, at: nat)
    requires
        from <= at,
        forall|i: nat|
            from <= i < at ==> row_step(#[trigger] after_blocks(r, i)).1 is Again,
    ensures
        after_blocks(r, at).prev == after_blocks(r, from).prev,
    decreases at - from,
{
    if from < at {
        lemma_prev_stays(r, from, (at - 1) as nat);
        assert(row_step(after_blocks(r, (at - 1) as nat)).1 is Again);
    }
}

/// The readers are the same but for what is to be made of rows, and the row that is being made.
pub open spec fn same_raw(a: ReaderModel, b: ReaderModel) -> bool {
    a == (ReaderModel {
        transform: a.transform,
        processed: a.processed,
        pixels: a.pixels,
        ..b
    })
}

/// A number of blocks do the same for readers that are the same but for what is made of rows.
proof fn lemma_blocks_alike(a: ReaderModel, b: ReaderModel, blocks: nat)
    requires
        same_raw(a, b),
    ensures
        same_raw(after_blocks(a, blocks), after_blocks(b, blocks)),
        row_step(after_blocks(a, blocks)).1 == row_step(after_blocks(b, blocks)).1,
        same_raw(row_step(after_blocks(a, blocks)).0, row_step(after_blocks(b, blocks)).0),
        after_blocks(a, blocks).transform == a.transform,
        after_blocks(a, blocks).processed == a.processed,
        after_blocks(a, blocks).pixels == a.pixels,
    decreases blocks,
{
    if blocks > 0 {
        lemma_blocks_alike(a, b, (blocks - 1) as nat);
    }
}

/// A row is read alike by readers that are the same but for what is made of rows.
pub proof fn lemma_row_alike(a: ReaderModel, b: ReaderModel)
    requires
        same_raw(a, b),
        row_ends(b),
    ensures
        row_ends(a),
        read_row(a).1 == read_row(b).1,
        same_raw(read_row(a).0, read_row(b).0),
        read_row(a).0.transform == a.transform,
        read_row(a).0.processed == a.processed,
        read_row(a).0.pixels == a.pixels,
{
    let last = choose|blocks: nat| ends_after(b, blocks);
    assert(ends_after(b, last));
    lemma_ends_once(b, last);
    assert forall|earlier: nat| earlier < last implies row_step(
        #[trigger] after_blocks(a, earlier),
    ).1 is Again by {
        lemma_blocks_alike(a, b, earlier);
        assert(row_step(after_blocks(b, earlier)).1 is Again);
    }
    lemma_blocks_alike(a, b, last);
    assert(ends_after(a, last));
    lemma_ends_once(a, last);
}

/// Where rows are handed out as they are, the next row is the next raw row: the rows, the end and
/// the errors are the same.
pub proof fn lemma_untransformed_row_is_raw(r: ReaderModel)
    requires
        r.transform.is_identity_spec(),
    ensures
        read_processed_row(r) == read_raw_row(r),
{
}

/// Rows that are handed out as they are fit wherever rows fit that are made into something.
proof fn lemma_raw_rows_fit(info: InfoModel, identity: Transformations, other: Transformations)
    requires
        identity.is_identity_spec(),
        rows_fit(info, other),
    ensures
        rows_fit(info, identity),
{
    assert(0u32 & 0x0010u32 == 0) by (bit_vector);
    assert(info.width as nat * info.bits_per_pixel() == info.bits_per_pixel() * info.width as nat)
        by (nonlinear_arith);
}

/// The answer for a row that is longer than the address space.
pub open spec fn too_long() -> RowAnswer {
    RowAnswer::Failed(ErrorModel::Unsupported(Unsupported::RowLength))
}

/// One of two readers hands rows out as they are, the other is asked for raw rows, and they are
/// otherwise the same: they come to the same row, end or error, and go on alike. Left out is a row
/// that only as the second reader is to make it is longer than the address space.
pub proof fn lemma_untransformed_rows_are_raw(identity: ReaderModel, other: ReaderModel)
    requires
        identity.transform.is_identity_spec(),
        same_raw(identity, other),
        read_meta(other).1 is Ready ==> row_ends(raw_begun(other)),
        read_raw_row(other).1 != too_long(),
    ensures
        read_processed_row(identity).1 == read_raw_row(other).1,
        same_raw(read_processed_row(identity).0, read_raw_row(other).0),
        read_processed_row(identity).0.transform == identity.transform,
{
    if let Some(info) = read_meta(other).0.d.info {
        if rows_fit(info, other.transform) {
            lemma_raw_rows_fit(info, identity.transform, other.transform);
        }
    }
    assert(same_raw(read_meta(identity).0, read_meta(other).0));
    assert(read_meta(identity).1 == read_meta(other).1);
    if read_meta(other).1 is Ready {
        lemma_row_alike(raw_begun(identity), raw_begun(other));
    }
}

/// The reader after a number of processed rows were asked for.
pub open spec fn after_rows(r: ReaderModel, rows: nat) -> ReaderModel
    decreases rows,
{
    if rows == 0 {
        r
    } else {
        read_processed_row(after_rows(r, (rows - 1) as nat)).0
    }
}

/// A reader that hands rows out as they are gives, call by call, the rows, the end and the errors
/// that an otherwise same reader gives that is asked for raw rows.
pub proof fn lemma_untransformed_rows_are_raw_throughout(
    identity: ReaderModel,
    other: ReaderModel,
    rows: nat,
)
    requires
        identity.transform.is_identity_spec(),
        same_raw(identity, other),
        forall|earlier: nat|
            earlier <= rows ==> {
                let before = #[trigger] after_raw_rows(other, earlier);
                &&& read_meta(before).1 is Ready ==> row_ends(raw_begun(before))
                &&& read_raw_row(before).1 != too_long()
            },
    ensures
        read_processed_row(after_rows(identity, rows)).1 == read_raw_row(
            after_raw_rows(other, rows),
        ).1,
        after_rows(identity, rows + 1).prev == after_raw_rows(other, rows + 1).prev,
        same_raw(after_rows(identity, rows), after_raw_rows(other, rows)),
        after_rows(identity, rows).transform.is_identity_spec(),
    decreases rows,
{
    if rows > 0 {
        let before = (rows - 1) as nat;
        lemma_untransformed_rows_are_raw_throughout(identity, other, before);
        assert(read_raw_row(after_raw_rows(other, before)).1 != too_long());
        lemma_untransformed_rows_are_raw(
            after_rows(identity, before),
            after_raw_rows(other, before),
        );
    }
    assert(read_raw_row(after_raw_rows(other, rows)).1 != too_long());
    lemma_untransformed_rows_are_raw(after_rows(identity, rows), after_raw_rows(other, rows));
}

/// The next row, once it is read, can be made into what is to be made of it.
pub open spec fn row_can_be_made(r: ReaderModel) -> bool {
    let (color_type, bit_depth) = row_pixels(r);
    let row = read_raw_row(r).0;
    processed_row(
        r.processed,
        row.prev.skip(1),
        color_type,
        bit_depth,
        row.d.info->0,
        r.transform,
    ) is Ok
}

/// A row of other than palette indices can always be made into what is to be made of it, and a row
/// of palette indices where each of them stands for a color. A palette of as many colors as there
/// are indices of a bit depth is enough.
pub proof fn lemma_row_can_be_made(
    buf: Seq<u8>,
    row: Seq<u8>,
    info: InfoModel,
    transform: Transformations,
)
    requires
        info_sound(Some(info)),
        info.color_type == ColorType::Indexed && transform.expands() ==> {
            &&& info.bit_depth != 16
            &&& info.palette matches Some(palette) && (palette.len() >= 3 * (sample_mask(
                info.bit_depth,
            ) + 1) || forall|j: int|
                0 <= j < room_for(buf, palette_channels(info.trns)) ==> #[trigger] sample(
                    overwritten(buf, row),
                    info.bit_depth,
                    j,
                ) < palette.len() as int / 3)
        },
    ensures
        processed_row(buf, row, info.color_type, info.bit_depth, info, transform) is Ok,
{
    if info.color_type == ColorType::Indexed && transform.expands() {
        let written = overwritten(buf, row);
        let pixels = room_for(written, palette_channels(info.trns));
        let limit = info.palette->0.len() as int / 3;
        assert forall|j: int| 0 <= j < pixels implies #[trigger] sample(written, info.bit_depth, j)
            < limit by {
            lemma_sample_bound(written, info.bit_depth, j);
        }
        lemma_none_is_beyond(written, info.bit_depth, 0, pixels, limit);
    }
}

/// Where each sample is below a limit, none lies beyond it.
pub proof fn lemma_none_is_beyond(buf: Seq<u8>, bit_depth: u8, from: int, to: int, limit: int)
    requires
        forall|j: int| from <= j < to ==> #[trigger] sample(buf, bit_depth, j) < limit,
    ensures
        first_beyond(buf, bit_depth, from, to, limit) is None,
    decreases to - from,
{
    if from < to {
        lemma_none_is_beyond(buf, bit_depth, from + 1, to, limit);
    }
}

/// A processed row is read as a raw row is, and where it can be made, it is made, as long as the
/// row before it.
proof fn lemma_processed_like_raw(r: ReaderModel, raw: ReaderModel)
    requires
        same_raw(r, raw),
        info_known(r),
        r.pixels is None,
        raw.pixels is None,
        !r.transform.is_identity_spec(),
        row_ends(raw),
        read_raw_row(raw).1 is Row ==> row_can_be_made(r),
    ensures
        read_raw_row(raw).1 is Row || read_raw_row(raw).1 is End ==> {
            &&& read_processed_row(r).1 == read_raw_row(raw).1
            &&& same_raw(read_processed_row(r).0, read_raw_row(raw).0)
            &&& read_processed_row(r).0.pixels is None
            &&& read_processed_row(r).0.transform == r.transform
            &&& read_processed_row(r).0.processed.len() == r.processed.len()
        },
{
    assert(raw_begun(raw) == raw);
    assert(raw_begun(r) == r);
    lemma_row_alike(row_begun(r), raw);
    lemma_row_alike(r, raw);
    let (color_type, bit_depth) = row_pixels(r);
    let row = read_row(row_begun(r)).0;
    lemma_expansion_keeps_length(
        overwritten(r.processed, row.prev.skip(1)),
        color_type,
        bit_depth,
        row.d.info->0,
    );
}

/// The reader has made as many rows as the other has read.
spec fn made_so_far(made: ReaderModel, raw: ReaderModel, r: ReaderModel) -> bool {
    &&& same_raw(made, raw)
    &&& made.pixels is None
    &&& made.transform == r.transform
    &&& made.processed.len() == r.processed.len()
}

/// The next processed row, or the end, comes where the next raw row, or the end, does.
proof fn lemma_next_processed_row(r: ReaderModel, blocks: nat, rows: nat, made: ReaderModel)
    requires
        in_step(r),
        r.pixels is None,
        !r.transform.is_identity_spec(),
        reaches_end(r, blocks),
        rows <= image(r, blocks).len() / r.rowlen,
        made_so_far(made, after_raw_rows(r, rows), r),
        rows < image(r, blocks).len() / r.rowlen ==> row_can_be_made(made),
    ensures
        ({
            let count = image(r, blocks).len() / r.rowlen;
            &&& rows < count ==> read_processed_row(made).1 is Row
            &&& rows == count ==> read_processed_row(made).1 is End
            &&& made_so_far(read_processed_row(made).0, after_raw_rows(r, rows + 1), r)
        }),
{
    let raw = after_raw_rows(r, rows);
    lemma_row_count(r, blocks, rows);
    lemma_raw_stays_known(r, blocks, rows);
    assert(raw_begun(raw) == raw);
    lemma_processed_like_raw(made, raw);
    assert(after_raw_rows(r, rows + 1) == read_raw_row(raw).0);
}

/// How many processed rows a file gives: as many as raw rows, all of the same length, then the end,
/// where each of them can be made.
pub proof fn lemma_processed_row_count(r: ReaderModel, blocks: nat, rows: nat)
    requires
        in_step(r),
        r.pixels is None,
        !r.transform.is_identity_spec(),
        reaches_end(r, blocks),
        rows <= image(r, blocks).len() / r.rowlen,
        forall|earlier: nat|
            earlier <= rows && earlier < image(r, blocks).len() / r.rowlen ==> row_can_be_made(
                #[trigger] after_rows(r, earlier),
            ),
    ensures
        ({
            let count = image(r, blocks).len() / r.rowlen;
            let asked = after_rows(r, rows);
            let next = after_rows(r, rows + 1);
            &&& rows < count ==> read_processed_row(asked).1 is Row
            &&& rows == count ==> read_processed_row(asked).1 is End
            &&& next.processed.len() == r.processed.len()
            &&& same_raw(next, after_raw_rows(r, rows + 1))
        }),
{
    lemma_rows_made(r, blocks, rows);
    lemma_next_processed_row(r, blocks, rows, after_rows(r, rows));
    assert(after_rows(r, rows + 1) == read_processed_row(after_rows(r, rows)).0);
}

/// After a number of processed rows, the reader has read as many raw rows.
proof fn lemma_rows_made(r: ReaderModel, blocks: nat, rows: nat)
    requires
        in_step(r),
        r.pixels is None,
        !r.transform.is_identity_spec(),
        reaches_end(r, blocks),
        rows <= image(r, blocks).len() / r.rowlen,
        forall|earlier: nat|
            earlier < rows ==> row_can_be_made(#[trigger] after_rows(r, earlier)),
    ensures
        made_so_far(after_rows(r, rows), after_raw_rows(r, rows), r),
    decreases rows,
{
    if rows > 0 {
        let before = (rows - 1) as nat;
        lemma_rows_made(r, blocks, before);
        assert(row_can_be_made(after_rows(r, before)));
        lemma_next_processed_row(r, blocks, before, after_rows(r, before));
    }
}

/// Between rows, a reader knows the meta data, and is not within a row.
proof fn lemma_raw_stays_known(r: ReaderModel, blocks: nat, rows: nat)
    requires
        in_step(r),
        r.pixels is None,
        reads_on(r, blocks),
        rows <= image(r, blocks).len() / r.rowlen,
    ensures
        after_raw_rows(r, rows).pixels is None,
        info_known(after_raw_rows(r, rows)),
{
    lemma_current_is_the_rest(r, blocks);
    lemma_whole_rows(r, blocks);
    let at = lemma_position(r, blocks, rows);
}

/// The rows that blocks complete are as many as their image data has room for.
proof fn lemma_whole_rows(r: ReaderModel, blocks: nat)
    requires
        in_step(r),
        reads_on(r, blocks),
    ensures
        rows_in(r, blocks) == image(r, blocks).len() / r.rowlen,
{
    lemma_current_is_the_rest(r, blocks);
    let total = image(r, blocks).len();
    let count = total / r.rowlen;
    let whole = rows_in(r, blocks);
    assert(whole == count) by (nonlinear_arith)
        requires
            count == total / r.rowlen,
            r.rowlen > 0,
            whole * r.rowlen <= total,
            total < whole * r.rowlen + r.rowlen,
    ;
}

/// There is nothing to be made of rows of these pixels but what they are: rows are not to be
/// expanded, or they are of colors, or of gray samples of eight bits. `opaque` is that no opacity
/// is to be added.
pub open spec fn nothing_to_expand(
    pixels: (ColorType, u8),
    opaque: bool,
    transform: Transformations,
) -> bool {
    ||| !transform.expands()
    ||| pixels.0 == ColorType::RGBA
    ||| pixels.0 == ColorType::RGB && opaque
    ||| pixels.0 == ColorType::Grayscale && pixels.1 == 8 && opaque
    ||| pixels.0 == ColorType::GrayscaleAlpha && pixels.1 == 8
}

/// Where there is nothing to be made of rows but what they are, a processed row takes as many bytes
/// as the pixels of a raw row.
pub proof fn lemma_nothing_to_expand_length(info: InfoModel, transform: Transformations)
    requires
        nothing_to_expand((info.color_type, info.bit_depth), info.trns is None, transform),
    ensures
        out_length(info, transform) == info.raw_row_length() - 1,
{
    assert(info.width as nat * info.bits_per_pixel() == info.bits_per_pixel() * info.width as nat)
        by (nonlinear_arith);
}

/// Where there is nothing to be made of rows but what they are, the processed row equals the raw
/// row, and is given wherever the raw row is.
pub proof fn lemma_processed_row_is_raw(r: ReaderModel)
    requires
        !r.transform.is_identity_spec(),
        ({
            let meta = read_meta(r).0;
            read_meta(r).1 is Ready ==> {
                &&& row_ends(raw_begun(r))
                &&& nothing_to_expand(
                    row_pixels(meta),
                    meta.d.info->0.trns is None,
                    r.transform,
                )
                &&& info_known(r) ==> meta.processed.len() == meta.rowlen - 1
                &&& !info_known(r) ==> r.pixels is None
            }
        }),
    ensures
        read_processed_row(r).1 == read_raw_row(r).1,
        same_raw(read_processed_row(r).0, read_raw_row(r).0),
        read_processed_row(r).1 is Row ==> read_processed_row(r).0.processed == read_raw_row(
            r,
        ).0.prev.skip(1),
{
    let meta = read_meta(r).0;
    if read_meta(r).1 is Ready {
        if !info_known(r) {
            lemma_fresh_pixels(r);
        }
        lemma_row_alike(row_begun(r), raw_begun(r));
        let row = read_row(row_begun(r)).0;
        if read_row(row_begun(r)).1 is Row {
            lemma_read_row_length(raw_begun(r));
            assert(overwritten(row.processed, row.prev.skip(1)) =~= row.prev.skip(1));
        }
    }
}

/// Where the meta data has just been read, the processed row is as long as is allocated for it.
proof fn lemma_fresh_pixels(r: ReaderModel)
    requires
        !info_known(r),
        read_meta(r).1 is Ready,
        nothing_to_expand(
            row_pixels(read_meta(r).0),
            read_meta(r).0.d.info->0.trns is None,
            r.transform,
        ),
        r.pixels is None,
    ensures
        read_meta(r).0.processed.len() == read_meta(r).0.rowlen - 1,
{
    lemma_nothing_to_expand_length(read_meta(r).0.d.info->0, r.transform);
}

/// A row that was read is as long as a row.
proof fn lemma_read_row_length(r: ReaderModel)
    requires
        row_ends(r),
        read_row(r).1 is Row,
    ensures
        read_row(r).0.prev.len() == r.rowlen,
        read_row(r).0.rowlen == r.rowlen,
        r.rowlen > 0,
{
    let last = choose|blocks: nat| ends_after(r, blocks);
    assert(ends_after(r, last));
    lemma_ends_once(r, last);
    lemma_blocks_keep(r, last);
    lemma_block_completes(after_blocks(r, last));
}

} // verus!
