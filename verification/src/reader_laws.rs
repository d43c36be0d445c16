//! Laws of reading: what holds of the reader over several operations, and of the rows that it
//! hands out.
use crate::decoder_laws::lemma_update_in_pieces;
use crate::error::ErrorModel;
use crate::filter::{filter_type_of, unfiltered};
use crate::model::{
    data_fits, in_image_data, lemma_taken, rank, tick, updated, DecodedModel, DecoderModel,
};
use crate::reader_model::{
    after_blocks, ends_after, expand, info_known, lemma_ends_once, meta_over, next_block,
    out_length, out_type, prepared, read_meta, read_processed_row, read_row, reader_sound,
    row_begun, row_ends, row_made, row_pixels, row_step, rows_fit, scan, starts_image,
    BlockAnswer, ReaderModel, RowAnswer, StageAnswer,
};
use crate::types::{bytes_for, ColorType, InfoModel, Transformations};
use vstd::prelude::*;

verus! {

/// The reader that was handed more bytes.
pub open spec fn fed(r: ReaderModel, bytes: Seq<u8>) -> ReaderModel {
    ReaderModel { pending: r.pending + bytes, ..r }
}

/// The readers are the same but for the bytes that they have not passed over.
pub open spec fn same_but_pending(a: ReaderModel, b: ReaderModel) -> bool {
    a == (ReaderModel { pending: a.pending, ..b })
}

/// Bytes can be handed over in pieces: where the next block needs more than the first piece, the
/// second piece gives what both pieces give together. Where it needs no more, the second piece
/// makes no difference. The bytes that the end of the image or an error was found in are not passed
/// over, and which these are depends on the pieces.
pub proof fn lemma_block_in_pieces(d: DecoderModel, first: Seq<u8>, second: Seq<u8>)
    requires
        d.phase !is Failed,
    ensures
        ({
            let alone = next_block(d, first);
            let whole = next_block(d, first + second);
            if alone.answer is NeedInput {
                let next = next_block(alone.d, second);
                &&& alone.pending.len() == 0
                &&& alone.d.phase !is Failed
                &&& whole.d == next.d
                &&& whole.answer == next.answer
                &&& next.answer is NeedInput || next.answer is Block ==> whole.pending
                    == next.pending
            } else {
                &&& whole.d == alone.d
                &&& whole.answer == alone.answer
                &&& whole.pending == alone.pending + second
                &&& alone.answer !is Failed ==> alone.d.phase !is Failed
            }
        }),
{
    let both = first + second;
    lemma_taken(d, first);
    lemma_taken(d, both);
    if first.len() == 0 {
        assert(both =~= second);
    } else {
        lemma_update_in_pieces(d, first, second);
        let alone = updated(d, first);
        if let Ok((taken, decoded)) = alone.outcome {
            assert(both.skip(taken as int) =~= first.skip(taken as int) + second);
            if decoded is Nothing {
                lemma_taken(alone.after, second);
                if second.len() == 0 {
                    assert(both =~= first);
                } else if let Ok((more, _)) = updated(alone.after, second).outcome {
                    assert(both.skip((first.len() + more) as int) =~= second.skip(more as int));
                }
            }
        }
    }
}

/// After the end of an image, the decoder waits for a chunk.
proof fn lemma_image_end(d: DecoderModel, buf: Seq<u8>)
    ensures
        updated(d, buf).outcome matches Ok((_, DecodedModel::ImageEnd)) ==> updated(
            d,
            buf,
        ).after.phase is Length,
    decreases buf.len(), rank(d),
{
    if buf.len() > 0 && d.phase !is Failed {
        let step = tick(d, buf[0]);
        if step.outcome == Ok::<DecodedModel, ErrorModel>(DecodedModel::Nothing) {
            if step.took {
                lemma_image_end(step.next, buf.skip(1));
            } else {
                lemma_image_end(step.next, buf);
            }
        }
    }
}

/// The search for the image data can be handed its bytes in pieces.
proof fn lemma_scan_in_pieces(d: DecoderModel, first: Seq<u8>, second: Seq<u8>)
    requires
        d.phase !is Failed,
    ensures
        ({
            let alone = scan(d, first);
            let whole = scan(d, first + second);
            if alone.answer is NeedInput {
                let next = scan(alone.d, alone.pending + second);
                &&& alone.d.phase !is Failed
                &&& whole.d == next.d
                &&& whole.answer == next.answer
                &&& next.answer is NeedInput || (next.answer is Ready && next.d.phase !is Length)
                    ==> whole.pending == next.pending
            } else {
                &&& whole.d == alone.d
                &&& whole.answer == alone.answer
                &&& whole.pending == alone.pending + second
                &&& alone.answer is Ready ==> alone.d.phase !is Failed
            }
        }),
    decreases first.len(), rank(d),
{
    lemma_block_in_pieces(d, first, second);
    let alone = next_block(d, first);
    match alone.answer {
        BlockAnswer::NeedInput => {
            assert(alone.pending + second =~= second);
            lemma_image_end(alone.d, second);
        },
        BlockAnswer::Block(decoded) => {
            if !starts_image(decoded) {
                lemma_taken(d, first);
                lemma_scan_in_pieces(alone.d, alone.pending, second);
            }
        },
        _ => {},
    }
}

/// The meta data can be handed over in pieces: asked again with more bytes, the reader comes to
/// what it would have come to with all bytes at once; an error, and an image that ends before its
/// image data, up to the bytes not passed over.
pub proof fn lemma_meta_in_pieces(r: ReaderModel, bytes: Seq<u8>)
    ensures
        ({
            let (alone, answer) = read_meta(r);
            let (whole, whole_answer) = read_meta(fed(r, bytes));
            if answer is NeedInput {
                let (next, next_answer) = read_meta(fed(alone, bytes));
                &&& whole_answer == next_answer
                &&& same_but_pending(whole, next)
                &&& next_answer is NeedInput || (next_answer is Ready && next.d.phase !is Length)
                    ==> whole == next
            } else {
                &&& whole_answer == answer
                &&& whole == fed(alone, bytes)
                &&& answer is Ready && r.d.phase !is Failed ==> alone.d.phase !is Failed
            }
        }),
{
    if !info_known(r) && !meta_over(r.d) {
        lemma_scan_in_pieces(r.d, r.pending, bytes);
        lemma_scan_begins(r.d, r.pending);
    }
}

/// One block for the current row can be handed over in pieces.
proof fn lemma_row_step_in_pieces(r: ReaderModel, bytes: Seq<u8>)
    requires
        r.d.phase !is Failed,
    ensures
        ({
            let (alone, answer) = row_step(r);
            let (whole, whole_answer) = row_step(fed(r, bytes));
            if answer is NeedInput {
                let (next, next_answer) = row_step(fed(alone, bytes));
                &&& alone.d.phase !is Failed
                &&& whole_answer == next_answer
                &&& same_but_pending(whole, next)
                &&& next_answer is Again || next_answer is Row || next_answer is NeedInput ==> whole
                    == next
            } else {
                &&& whole_answer == answer
                &&& whole == fed(alone, bytes)
                &&& answer is Again ==> alone.d.phase !is Failed
            }
        }),
{
    lemma_block_in_pieces(r.d, r.pending, bytes);
    let alone = next_block(r.d, r.pending);
    if alone.answer is NeedInput {
        assert(alone.pending + bytes =~= bytes);
    }
}

/// Up to the end of a row, more bytes make no difference.
proof fn lemma_blocks_fed(r: ReaderModel, bytes: Seq<u8>, last: nat, blocks: nat)
    requires
        r.d.phase !is Failed,
        ends_after(r, last),
        blocks <= last,
    ensures
        after_blocks(fed(r, bytes), blocks) == fed(after_blocks(r, blocks), bytes),
        after_blocks(r, blocks).d.phase !is Failed,
    decreases blocks,
{
    if blocks > 0 {
        let before = (blocks - 1) as nat;
        lemma_blocks_fed(r, bytes, last, before);
        assert(row_step(after_blocks(r, before)).1 is Again);
        lemma_row_step_in_pieces(after_blocks(r, before), bytes);
    }
}

/// Two readers that a block leads to the same reader go on alike.
proof fn lemma_blocks_after(a: ReaderModel, start: nat, b: ReaderModel, blocks: nat)
    requires
        row_step(after_blocks(a, start)).0 == row_step(b).0,
        blocks >= 1,
    ensures
        after_blocks(a, start + blocks) == after_blocks(b, blocks),
    decreases blocks,
{
    reveal_with_fuel(after_blocks, 2);
    if blocks > 1 {
        lemma_blocks_after(a, start, b, (blocks - 1) as nat);
    }
}

/// A row can be handed over in pieces. Where reading a row needs more than the bytes there are, and
/// is asked for again with more of them, it comes to what it would have come to with all bytes at
/// once; the end of the image and an error up to the bytes not passed over. Where it needs no more,
/// more bytes make no difference.
#[verifier::rlimit(40)]
pub proof fn lemma_row_in_pieces(r: ReaderModel, bytes: Seq<u8>)
    requires
        r.d.phase !is Failed,
        exists|blocks: nat| ends_after(r, blocks),
        read_row(r).1 is NeedInput ==> exists|blocks: nat|
            ends_after(fed(read_row(r).0, bytes), blocks),
    ensures
        ({
            let (alone, answer) = read_row(r);
            let (whole, whole_answer) = read_row(fed(r, bytes));
            if answer is NeedInput {
                let (next, next_answer) = read_row(fed(alone, bytes));
                &&& whole_answer == next_answer
                &&& same_but_pending(whole, next)
                &&& next_answer is Row || next_answer is NeedInput ==> whole == next
            } else {
                &&& whole_answer == answer
                &&& whole == fed(alone, bytes)
            }
        }),
{
    let both = fed(r, bytes);
    let last = choose|blocks: nat| ends_after(r, blocks);
    lemma_ends_once(r, last);
    lemma_blocks_fed(r, bytes, last, last);
    let stop = after_blocks(r, last);
    lemma_row_step_in_pieces(stop, bytes);
    assert forall|earlier: nat| earlier < last implies row_step(
        #[trigger] after_blocks(both, earlier),
    ).1 is Again by {
        lemma_blocks_fed(r, bytes, last, earlier);
        assert(row_step(after_blocks(r, earlier)).1 is Again);
        lemma_row_step_in_pieces(after_blocks(r, earlier), bytes);
    }
    if read_row(r).1 !is NeedInput {
        assert(ends_after(both, last));
        lemma_ends_once(both, last);
    } else {
        let again = fed(read_row(r).0, bytes);
        let more = choose|blocks: nat| ends_after(again, blocks);
        lemma_ends_once(again, more);
        if more == 0 {
            assert(ends_after(both, last));
            lemma_ends_once(both, last);
        } else {
            assert(row_step(after_blocks(again, 0)).1 is Again);
            assert forall|earlier: nat| earlier < last + more implies row_step(
                #[trigger] after_blocks(both, earlier),
            ).1 is Again by {
                if earlier > last {
                    let further = (earlier - last) as nat;
                    lemma_blocks_after(both, last, again, further);
                    assert(row_step(after_blocks(again, further)).1 is Again);
                }
            }
            lemma_blocks_after(both, last, again, more);
            assert(ends_after(both, last + more));
            lemma_ends_once(both, last + more);
        }
    }
}

/// Reading on leaves the processed row, and what is to be made of rows, as they are.
pub proof fn lemma_blocks_keep(r: ReaderModel, blocks: nat)
    ensures
        after_blocks(r, blocks).processed == r.processed,
        after_blocks(r, blocks).transform == r.transform,
        after_blocks(r, blocks).rowlen == r.rowlen,
        after_blocks(r, blocks).bpp == r.bpp,
        after_blocks(r, blocks).pixels == r.pixels,
    decreases blocks,
{
    if blocks > 0 {
        lemma_blocks_keep(r, (blocks - 1) as nat);
    }
}

/// Reading a row leaves the processed row, and what is to be made of rows, as they are.
proof fn lemma_row_keeps(r: ReaderModel)
    ensures
        read_row(r).0.processed == r.processed,
        read_row(r).0.transform == r.transform,
        read_row(r).0.rowlen == r.rowlen,
        read_row(r).0.pixels == r.pixels,
{
    let last = choose|blocks: nat| ends_after(r, blocks);
    lemma_blocks_keep(r, last);
    assert(read_row(r) == row_step(after_blocks(r, last)));
}

/// A row is made alike of readers that are the same but for the bytes not passed over.
proof fn lemma_made_alike(
    a: ReaderModel,
    b: ReaderModel,
    answer: RowAnswer,
    pixels: (ColorType, u8),
)
    requires
        same_but_pending(a, b),
    ensures
        ({
            let (a_made, a_answer) = row_made(a, answer, pixels);
            let (b_made, b_answer) = row_made(b, answer, pixels);
            &&& a_answer == b_answer
            &&& same_but_pending(a_made, b_made)
            &&& a_made.pending == a.pending
            &&& b_made.pending == b.pending
        }),
{
}

/// What the reading of a row comes to, whether it is processed or not.
spec fn handed_out(r: ReaderModel, row: ReaderModel, answer: RowAnswer) -> (
    ReaderModel,
    RowAnswer,
) {
    if r.transform.is_identity_spec() {
        (row, answer)
    } else {
        row_made(row, answer, row_pixels(read_meta(r).0))
    }
}

/// A reader that has asked for input within a row goes on with that row.
proof fn lemma_asked_within_row(r: ReaderModel, bytes: Seq<u8>)
    requires
        info_known(read_meta(r).0),
        read_meta(r).1 is Ready,
        read_processed_row(r).1 is NeedInput,
    ensures
        ({
            let again = fed(read_processed_row(r).0, bytes);
            &&& read_meta(again) == (again, StageAnswer::Ready)
            &&& row_begun(again) == fed(read_row(row_begun(r)).0, bytes)
            &&& again.transform == r.transform
            &&& !r.transform.is_identity_spec() ==> row_pixels(again) == row_pixels(read_meta(r).0)
        }),
{
    lemma_row_keeps(row_begun(r));
}

/// Once the meta data is known, a row can be handed over in pieces.
proof fn lemma_started_row_in_pieces(r: ReaderModel, bytes: Seq<u8>)
    requires
        read_meta(r).1 is Ready,
        info_known(read_meta(r).0),
        row_ends(row_begun(r)),
        read_processed_row(r).1 is NeedInput ==> row_ends(
            row_begun(fed(read_processed_row(r).0, bytes)),
        ),
        read_meta(fed(r, bytes)) == (fed(read_meta(r).0, bytes), read_meta(r).1),
        read_meta(r).0.d.phase !is Failed,
    ensures
        ({
            let (alone, answer) = read_processed_row(r);
            let (whole, whole_answer) = read_processed_row(fed(r, bytes));
            if answer is NeedInput {
                let (next, next_answer) = read_processed_row(fed(alone, bytes));
                &&& whole_answer == next_answer
                &&& same_but_pending(whole, next)
                &&& next_answer is Row || next_answer is NeedInput ==> whole == next
            } else {
                &&& whole_answer == answer
                &&& whole == fed(alone, bytes)
            }
        }),
{
    let start = row_begun(r);
    let pixels = row_pixels(read_meta(r).0);
    let (row, answer) = read_row(start);
    let (whole, whole_answer) = read_row(fed(start, bytes));
    assert(row_begun(fed(r, bytes)) == fed(start, bytes));
    assert(read_processed_row(fed(r, bytes)) == handed_out(fed(r, bytes), whole, whole_answer));
    assert(read_processed_row(r) == handed_out(r, row, answer));
    if answer is NeedInput {
        lemma_asked_within_row(r, bytes);
        lemma_row_in_pieces(start, bytes);
        let again = fed(read_processed_row(r).0, bytes);
        let (next, next_answer) = read_row(fed(row, bytes));
        assert(read_processed_row(again) == handed_out(again, next, next_answer));
        lemma_made_alike(whole, next, next_answer, pixels);
    } else {
        lemma_row_in_pieces(start, bytes);
        lemma_made_alike(whole, row, answer, pixels);
    }
}

/// Where the meta data needs input, a row can be handed over in pieces.
proof fn lemma_row_after_meta(r: ReaderModel, bytes: Seq<u8>)
    requires
        read_meta(r).1 is NeedInput,
        ({
            let (whole, whole_answer) = read_meta(fed(r, bytes));
            let (next, next_answer) = read_meta(fed(read_meta(r).0, bytes));
            &&& whole_answer == next_answer
            &&& same_but_pending(whole, next)
            &&& next_answer !is Failed ==> whole == next
        }),
    ensures
        read_processed_row(r) == (read_meta(r).0, RowAnswer::NeedInput),
        ({
            let (whole, whole_answer) = read_processed_row(fed(r, bytes));
            let (next, next_answer) = read_processed_row(fed(read_meta(r).0, bytes));
            &&& whole_answer == next_answer
            &&& same_but_pending(whole, next)
            &&& next_answer !is Failed ==> whole == next
        }),
{
    assert(read_meta(r).0.transform == r.transform);
}

/// A row can be handed over in pieces, and the meta data before it. Where a row is asked for again
/// with more bytes, it comes to what it would have come to with all bytes at once; the end of the
/// image and an error up to the bytes not passed over. Where it needs no more, more bytes make no
/// difference. Left out are files in which the image ends before its image data.
pub proof fn lemma_processed_row_in_pieces(r: ReaderModel, bytes: Seq<u8>)
    requires
        r.d.phase !is Failed,
        read_meta(r).1 is Ready ==> row_ends(row_begun(r)),
        read_processed_row(r).1 is NeedInput ==> {
            let again = fed(read_processed_row(r).0, bytes);
            let (meta, answer) = read_meta(again);
            &&& answer is Ready ==> row_ends(row_begun(again))
            &&& read_meta(r).1 is NeedInput && answer is Ready ==> meta.d.phase !is Length
        },
    ensures
        ({
            let (alone, answer) = read_processed_row(r);
            let (whole, whole_answer) = read_processed_row(fed(r, bytes));
            if answer is NeedInput {
                let (next, next_answer) = read_processed_row(fed(alone, bytes));
                &&& whole_answer == next_answer
                &&& same_but_pending(whole, next)
                &&& next_answer is Row || next_answer is NeedInput ==> whole == next
            } else {
                &&& whole_answer == answer
                &&& whole == fed(alone, bytes)
            }
        }),
{
    lemma_meta_in_pieces(r, bytes);
    match read_meta(r).1 {
        StageAnswer::Ready => {
            if read_processed_row(r).1 is NeedInput {
                lemma_asked_within_row(r, bytes);
            }
            lemma_started_row_in_pieces(r, bytes);
        },
        StageAnswer::NeedInput => {
            lemma_row_after_meta(r, bytes);
        },
        StageAnswer::Failed(_) => {},
    }
}

/// The image data of the next block; none, where it is no image data.
pub open spec fn block_data(r: ReaderModel) -> Seq<u8> {
    match next_block(r.d, r.pending).answer {
        BlockAnswer::Block(DecodedModel::ImageData(data)) => data,
        _ => Seq::empty(),
    }
}

/// The image data of a number of blocks.
pub open spec fn blocks_data(r: ReaderModel, blocks: nat) -> Seq<u8>
    decreases blocks,
{
    if blocks == 0 {
        Seq::empty()
    } else {
        let before = (blocks - 1) as nat;
        blocks_data(r, before) + block_data(after_blocks(r, before))
    }
}

/// Up to the end of a row, the current row grows by the image data.
proof fn lemma_current_grows(r: ReaderModel, last: nat, blocks: nat)
    requires
        ends_after(r, last),
        blocks <= last,
    ensures
        after_blocks(r, blocks).current == r.current + blocks_data(r, blocks),
        after_blocks(r, blocks).prev == r.prev,
        after_blocks(r, blocks).bpp == r.bpp,
        after_blocks(r, blocks).rowlen == r.rowlen,
    decreases blocks,
{
    if blocks == 0 {
        assert(r.current + blocks_data(r, blocks) =~= r.current);
    } else {
        let before = (blocks - 1) as nat;
        lemma_current_grows(r, last, before);
        assert(row_step(after_blocks(r, before)).1 is Again);
        assert(after_blocks(r, blocks).current =~= r.current + blocks_data(r, blocks));
    }
}

/// A row that is handed out is the image data since the row before it, all of it, freed of the
/// filter that its first byte names. It takes exactly as many bytes of image data as a row has.
pub proof fn lemma_row_is_image_data(r: ReaderModel, blocks: nat)
    requires
        ends_after(r, blocks),
        read_row(r).1 is Row,
    ensures
        ({
            let raw = r.current + blocks_data(r, blocks + 1);
            let after = read_row(r).0;
            &&& raw.len() == r.rowlen
            &&& filter_type_of(raw[0]) matches Some(filter)
            &&& after.prev.skip(1) == unfiltered(filter, r.bpp as int, r.prev.skip(1), raw.skip(1))
            &&& after.current == Seq::<u8>::empty()
        }),
{
    lemma_ends_once(r, blocks);
    lemma_current_grows(r, blocks, blocks);
    let last = after_blocks(r, blocks);
    let raw = r.current + blocks_data(r, blocks + 1);
    assert(last.current + block_data(last) =~= raw);
    let row = unfiltered(filter_type_of(raw[0])->0, r.bpp as int, r.prev.skip(1), raw.skip(1));
    assert((seq![raw[0]] + row).skip(1) =~= row);
}

/// What is reported other than image data leaves the position in the row as it is.
proof fn lemma_row_left_stays(d: DecoderModel, buf: Seq<u8>)
    ensures
        updated(d, buf).outcome matches Ok((_, decoded)) ==> decoded !is ImageData ==> updated(
            d,
            buf,
        ).after.row_left == d.row_left,
    decreases buf.len(), rank(d),
{
    if buf.len() > 0 && d.phase !is Failed {
        let step = tick(d, buf[0]);
        if step.outcome == Ok::<DecodedModel, ErrorModel>(DecodedModel::Nothing) {
            if step.took {
                lemma_row_left_stays(step.next, buf.skip(1));
            } else {
                lemma_row_left_stays(step.next, buf);
            }
        }
    }
}

/// The reader's row and the decoder's row are the same one: what the reader holds of it and what
/// the decoder finds lacking make a row.
pub open spec fn in_step(r: ReaderModel) -> bool {
    &&& r.rowlen > 0
    &&& r.d.info matches Some(info) && info.raw_row_length() == r.rowlen
    &&& if r.d.row_left > 0 {
        r.current.len() + r.d.row_left == r.rowlen
    } else {
        r.current.len() == 0
    }
}

/// Image data is come to by the report that its chunk begins, and nothing is decompressed before.
proof fn lemma_update_before_image(d: DecoderModel, buf: Seq<u8>)
    requires
        !in_image_data(d),
    ensures
        ({
            let update = updated(d, buf);
            &&& update.after.calls == d.calls
            &&& update.after.row_left == d.row_left
            &&& update.outcome matches Ok((_, decoded)) ==> {
                &&& decoded !is ImageData
                &&& starts_image(decoded) <==> in_image_data(update.after)
            }
        }),
    decreases buf.len(), rank(d),
{
    if buf.len() > 0 && d.phase !is Failed {
        let step = tick(d, buf[0]);
        if step.outcome == Ok::<DecodedModel, ErrorModel>(DecodedModel::Nothing) {
            if step.took {
                lemma_update_before_image(step.next, buf.skip(1));
            } else {
                lemma_update_before_image(step.next, buf);
            }
        }
    }
}

/// The search for the image data decompresses nothing.
proof fn lemma_scan_before_image(d: DecoderModel, pending: Seq<u8>)
    requires
        !in_image_data(d),
    ensures
        scan(d, pending).d.calls == d.calls,
        scan(d, pending).d.row_left == d.row_left,
        scan(d, pending).answer is NeedInput ==> !in_image_data(scan(d, pending).d),
        scan(d, pending).answer is Ready ==> in_image_data(scan(d, pending).d) || scan(
            d,
            pending,
        ).d.phase is Length,
    decreases pending.len(), rank(d),
{
    lemma_update_before_image(d, pending);
    lemma_image_end(d, pending);
    lemma_taken(d, pending);
    let block = next_block(d, pending);
    if let BlockAnswer::Block(decoded) = block.answer {
        if !starts_image(decoded) {
            lemma_scan_before_image(block.d, block.pending);
        }
    }
}

/// That the meta data is read through is noted where image data or the end is reported.
proof fn lemma_update_begins(d: DecoderModel, buf: Seq<u8>)
    requires
        !d.meta_read,
    ensures
        updated(d, buf).outcome matches Ok((_, decoded)) ==> !starts_image(decoded) && decoded
            !is ImageEnd ==> !updated(d, buf).after.meta_read,
    decreases buf.len(), rank(d),
{
    if buf.len() > 0 && d.phase !is Failed {
        let step = tick(d, buf[0]);
        if step.outcome == Ok::<DecodedModel, ErrorModel>(DecodedModel::Nothing) {
            if step.took {
                lemma_update_begins(step.next, buf.skip(1));
            } else {
                lemma_update_begins(step.next, buf);
            }
        }
    }
}

/// A search for the image data that needs input has not come to it.
proof fn lemma_scan_begins(d: DecoderModel, pending: Seq<u8>)
    requires
        !d.meta_read,
    ensures
        scan(d, pending).answer is NeedInput ==> !scan(d, pending).d.meta_read,
    decreases pending.len(), rank(d),
{
    lemma_update_begins(d, pending);
    lemma_taken(d, pending);
    let block = next_block(d, pending);
    if let BlockAnswer::Block(decoded) = block.answer {
        if !starts_image(decoded) {
            lemma_scan_begins(block.d, block.pending);
        }
    }
}

/// The decoder has come neither to image data nor to the end of an image.
pub open spec fn before_image(d: DecoderModel) -> bool {
    !in_image_data(d) && !d.meta_read
}

/// Reading the meta data of an image whose image data has not been come to leaves the image data
/// alone: nothing of it is decompressed, and nothing of it is held. Where it is asked for again it
/// goes on so. Once the meta data is known, the decoder stands at the start of the image data, or
/// behind an image that has none, and the reader is in step with it.
pub proof fn lemma_meta_leaves_image_data(r: ReaderModel)
    requires
        !info_known(r),
        before_image(r.d),
        r.d.row_left == 0,
        r.current.len() == 0,
    ensures
        ({
            let (after, answer) = read_meta(r);
            &&& after.d.calls == r.d.calls
            &&& after.d.row_left == 0
            &&& after.current.len() == 0
            &&& answer is NeedInput ==> before_image(after.d) && !info_known(after)
            &&& answer is Ready ==> in_step(after)
            &&& answer is Ready && r.d.phase !is Failed ==> in_image_data(after.d)
                || after.d.phase is Length
        }),
{
    if r.d.phase !is Failed {
        lemma_scan_before_image(r.d, r.pending);
        lemma_scan_begins(r.d, r.pending);
    }
}

/// The meta data of an image whose image data or end has been come to is at hand: it is given at
/// once, nothing is read, and no block is passed over.
pub proof fn lemma_meta_at_hand(r: ReaderModel)
    requires
        !info_known(r),
        r.d.meta_read,
        reader_sound(r),
        rows_fit(r.d.info->0, r.transform),
    ensures
        read_meta(r) == (prepared(r, r.d.info->0), StageAnswer::Ready),
{
}

/// A reader stays in step: the image data of each block belongs to the current row, completes it
/// exactly where the decoder finds nothing more lacking, and never goes beyond it. This holds of
/// image data that lies inside one row, as `Decoder::update` promises, and as long as no second
/// header changes the length of a row.
pub proof fn lemma_stays_in_step(r: ReaderModel)
    requires
        in_step(r),
        next_block(r.d, r.pending).answer matches BlockAnswer::Block(
            DecodedModel::ImageData(data),
        ) ==> data_fits(r.d, data.len(), next_block(r.d, r.pending).d),
        next_block(r.d, r.pending).d.info matches Some(info) && info.raw_row_length() == r.rowlen,
    ensures
        ({
            let (after, answer) = row_step(r);
            &&& answer is Again || answer is Row ==> in_step(after)
            &&& answer is Again ==> after.current.len() < r.rowlen
            &&& answer is Row ==> after.d.row_left == 0
            &&& next_block(r.d, r.pending).answer matches BlockAnswer::Block(
                DecodedModel::ImageData(data),
            ) ==> (answer is Again <==> after.d.row_left > 0)
        }),
{
    lemma_row_left_stays(r.d, r.pending);
}

/// A row that is expanded stays as long as it is.
pub proof fn lemma_expansion_keeps_length(
    buf: Seq<u8>,
    color_type: ColorType,
    bit_depth: u8,
    info: InfoModel,
)
    ensures
        expand(buf, color_type, bit_depth, info) matches Ok(expanded) ==> expanded.len()
            == buf.len(),
{
}

/// All processed rows of an image are of the same length, that of the rows of an image with this
/// meta data.
pub proof fn lemma_processed_row_length(r: ReaderModel)
    requires
        read_meta(r).1 is Ready,
        read_processed_row(r).1 is Row,
        !r.transform.is_identity_spec(),
    ensures
        read_processed_row(r).0.processed.len() == read_meta(r).0.processed.len(),
        !info_known(r) ==> read_meta(r).0.processed.len() == out_length(
            read_meta(r).0.d.info->0,
            r.transform,
        ),
{
    lemma_row_keeps(row_begun(r));
}

/// The color type and the bit depth that are announced are those of the rows: a processed row, and
/// a raw row where rows are handed out as they are, takes the bytes that its pixels take.
pub proof fn lemma_color_type_describes_rows(info: InfoModel, transform: Transformations)
    ensures
        ({
            let (color_type, bit_depth) = out_type(info, transform);
            let bits = color_type.samples_spec() * bit_depth as nat * info.width as nat;
            &&& !transform.is_identity_spec() ==> out_length(info, transform) == bytes_for(bits)
            &&& transform.is_identity_spec() ==> info.raw_row_length() - 1 == bytes_for(bits)
        }),
{
    assert(info.width as nat * info.bits_per_pixel() == info.bits_per_pixel() * info.width as nat)
        by (nonlinear_arith);
}

} // verus!
