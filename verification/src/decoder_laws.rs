//! Laws of decoding: what holds of the decoder over several updates, and what it makes of whole
//! chunks.
use crate::chunk::{idat, iend, ihdr, plte, trns};
use crate::crc::crc32;
use crate::error::ErrorModel;
use crate::inflater::{inflate_meaning, inflate_reply};
use crate::model::{
    be32, check, chunk_begun, chunk_done, decoder_sound, fresh, header, in_image_data,
    is_bit_depth, lemma_read_run, parse, plus_taken, rank, row_lacks, row_room, signature, takes,
    tick, updated, with_palette, with_trns, DecodedModel, DecoderModel, Phase, Update,
    CHUNCK_BUFFER_SIZE,
};
use crate::types::InfoModel;
use vstd::prelude::*;

verus! {

/// Bytes can be handed over in pieces. Where an update on a first piece reports nothing, an update
/// on the two pieces together comes to an update on the second piece. Where it reports something
/// or fails, the second piece makes no difference.
pub proof fn lemma_update_in_pieces(d: DecoderModel, first: Seq<u8>, second: Seq<u8>)
    requires
        d.phase !is Failed,
    ensures
        match updated(d, first).outcome {
            Ok((_, DecodedModel::Nothing)) => updated(d, first + second) == plus_taken(
                first.len(),
                updated(updated(d, first).after, second),
            ),
            _ => updated(d, first + second) == updated(d, first),
        },
    decreases first.len(), rank(d),
{
    let whole = first + second;
    if first.len() == 0 {
        assert(whole =~= second);
    } else {
        let step = tick(d, first[0]);
        assert(whole[0] == first[0]);
        assert(whole.skip(1) =~= first.skip(1) + second);
        if step.outcome == Ok::<DecodedModel, ErrorModel>(DecodedModel::Nothing) {
            if step.took {
                lemma_update_in_pieces(step.next, first.skip(1), second);
            } else {
                lemma_update_in_pieces(step.next, first, second);
            }
        }
    }
}

/// A decoder that has failed takes nothing more, reports nothing and stays as it is.
pub proof fn lemma_failed_decoder_rests(d: DecoderModel, buf: Seq<u8>)
    requires
        d.phase is Failed,
    ensures
        updated(d, buf) == (Update { after: d, outcome: Ok((0, DecodedModel::Nothing)) }),
{
}

/// A file starts with the signature: a decoder at the start of a file takes it and goes on to the
/// first chunk. It fails on any other eight bytes.
pub proof fn lemma_signature(buf: Seq<u8>)
    requires
        buf.len() >= 8,
    ensures
        buf.take(8) == signature() ==> updated(fresh(), buf) == plus_taken(
            8,
            updated(fresh().at(Phase::Length { seen: Seq::empty() }), buf.skip(8)),
        ),
        buf.take(8) != signature() ==> updated(fresh(), buf) == (Update {
            after: fresh().at(Phase::Failed),
            outcome: Err(ErrorModel::InvalidSignature),
        }),
{
    lemma_signature_rest(fresh(), Seq::empty(), buf);
    assert(Seq::<u8>::empty() + buf.take(8) =~= buf.take(8));
}

/// The signature from a position inside it on.
proof fn lemma_signature_rest(d: DecoderModel, seen: Seq<u8>, buf: Seq<u8>)
    requires
        d.phase == (Phase::Signature { seen }),
        seen.len() < 8,
        seen.len() + buf.len() >= 8,
    ensures
        ({
            let rest = 8 - seen.len();
            let read = seen + buf.take(rest);
            &&& read == signature() ==> updated(d, buf) == plus_taken(
                rest as nat,
                updated(d.at(Phase::Length { seen: Seq::empty() }), buf.skip(rest)),
            )
            &&& read != signature() ==> updated(d, buf) == (Update {
                after: d.at(Phase::Failed),
                outcome: Err(ErrorModel::InvalidSignature),
            })
        }),
    decreases 8 - seen.len(),
{
    let more = seen.push(buf[0]);
    if more.len() < 8 {
        let tail = buf.skip(1);
        let rest = 8 - more.len();
        lemma_signature_rest(d.at(Phase::Signature { seen: more }), more, tail);
        assert(more + tail.take(rest) =~= seen + buf.take(rest + 1));
        assert(tail.skip(rest) =~= buf.skip(rest + 1));
    } else {
        assert(seen + buf.take(1) =~= more);
    }
}

/// The four bytes that a number is written as, the most significant first.
pub open spec fn be_bytes(n: u32) -> Seq<u8> {
    seq![
        (n / 0x100_0000) as u8,
        (n / 0x1_0000 % 0x100) as u8,
        (n / 0x100 % 0x100) as u8,
        (n % 0x100) as u8,
    ]
}

/// A number is read as it was written.
pub proof fn lemma_number_round_trip(n: u32)
    ensures
        be32(be_bytes(n)) == n,
{
}

/// The bytes of a chunk: its length, its type, its data, and its check.
pub open spec fn chunk_bytes(kind: Seq<u8>, data: Seq<u8>, stored: u32) -> Seq<u8> {
    be_bytes(data.len() as u32) + kind + data + be_bytes(stored)
}

/// A step that takes a byte and reports nothing.
proof fn lemma_step(d: DecoderModel, next: DecoderModel, buf: Seq<u8>)
    requires
        d.phase !is Failed,
        buf.len() > 0,
        tick(d, buf[0]) == takes(next),
    ensures
        updated(d, buf) == plus_taken(1, updated(next, buf.skip(1))),
{
}

/// The first three of four bytes, where each is added to those before it.
proof fn lemma_three_steps(d: DecoderModel, seen: spec_fn(Seq<u8>) -> Phase, buf: Seq<u8>)
    requires
        buf.len() > 3,
        d.phase == seen(Seq::empty()),
        forall|bytes: Seq<u8>| bytes.len() < 3 ==> (#[trigger] seen(bytes)) !is Failed,
        forall|bytes: Seq<u8>, byte: u8|
            bytes.len() < 3 ==> tick(d.at(#[trigger] seen(bytes)), byte) == takes(
                d.at(#[trigger] seen(bytes.push(byte))),
            ),
    ensures
        updated(d, buf) == plus_taken(3, updated(d.at(seen(buf.take(3))), buf.skip(3))),
{
    let none = Seq::<u8>::empty();
    let one = none.push(buf[0]);
    let two = one.push(buf[1]);
    let three = two.push(buf[2]);
    assert(d.at(seen(none)) == d);
    assert(tick(d.at(seen(none)), buf[0]) == takes(d.at(seen(one))));
    assert(tick(d.at(seen(one)), buf[1]) == takes(d.at(seen(two))));
    assert(tick(d.at(seen(two)), buf[2]) == takes(d.at(seen(three))));
    lemma_step(d, d.at(seen(one)), buf);
    lemma_step(d.at(seen(one)), d.at(seen(two)), buf.skip(1));
    lemma_step(d.at(seen(two)), d.at(seen(three)), buf.skip(1).skip(1));
    assert(buf.skip(1).skip(1).skip(1) =~= buf.skip(3));
    assert(three =~= buf.take(3));
}

/// The four bytes of a length.
proof fn lemma_length(d: DecoderModel, bytes: Seq<u8>, buf: Seq<u8>)
    requires
        d.phase == (Phase::Length { seen: Seq::empty() }),
        bytes.len() == 4,
        bytes.is_prefix_of(buf),
    ensures
        updated(d, buf) == plus_taken(
            4,
            updated(d.at(Phase::Type { length: be32(bytes), seen: Seq::empty() }), buf.skip(4)),
        ),
{
    lemma_three_steps(d, |seen: Seq<u8>| Phase::Length { seen }, buf);
    assert(buf.take(3).push(buf[3]) =~= bytes);
    let next = d.at(Phase::Type { length: be32(bytes), seen: Seq::empty() });
    lemma_step(d.at(Phase::Length { seen: buf.take(3) }), next, buf.skip(3));
    assert(buf.skip(3).skip(1) =~= buf.skip(4));
}

/// The four bytes of a type.
proof fn lemma_type(d: DecoderModel, length: u32, kind: Seq<u8>, buf: Seq<u8>)
    requires
        d.phase == (Phase::Type { length, seen: Seq::empty() }),
        kind.len() == 4,
        kind.is_prefix_of(buf),
    ensures
        updated(d, buf) == (Update {
            after: chunk_begun(d, kind, length as nat),
            outcome: Ok((4, DecodedModel::ChunkBegin(length, kind))),
        }),
{
    lemma_three_steps(d, |seen: Seq<u8>| Phase::Type { length, seen }, buf);
    assert(buf.take(3).push(buf[3]) =~= kind);
}

/// The four bytes of a check.
proof fn lemma_check(d: DecoderModel, kind: Seq<u8>, covered: Seq<u8>, stored: u32, buf: Seq<u8>)
    requires
        d.phase == (Phase::Check { kind, covered, seen: Seq::empty() }),
        be_bytes(stored).is_prefix_of(buf),
    ensures
        ({
            let step = check(d, kind, covered, stored);
            &&& updated(d, buf).after == step.next
            &&& updated(d, buf).outcome == (match step.outcome {
                Ok(decoded) => Ok((4nat, decoded)),
                Err(error) => Err(error),
            })
        }),
{
    lemma_number_round_trip(stored);
    assert(buf.take(4) =~= be_bytes(stored));
    lemma_four_check_bytes(d, kind, covered, buf);
}

/// The next four bytes are the check of a chunk, whatever they are.
pub proof fn lemma_four_check_bytes(d: DecoderModel, kind: Seq<u8>, covered: Seq<u8>, buf: Seq<u8>)
    requires
        d.phase == (Phase::Check { kind, covered, seen: Seq::empty() }),
        buf.len() >= 4,
    ensures
        ({
            let step = check(d, kind, covered, be32(buf.take(4)));
            &&& updated(d, buf).after == step.next
            &&& updated(d, buf).outcome == (match step.outcome {
                Ok(decoded) => Ok((4nat, decoded)),
                Err(error) => Err(error),
            })
        }),
{
    lemma_three_steps(d, |seen: Seq<u8>| Phase::Check { kind, covered, seen }, buf);
    assert(buf.take(3).push(buf[3]) =~= buf.take(4));
}

/// What becomes of a decoder that has made use of a chunk. Where that has failed, it rests: it
/// takes nothing more, reports nothing and stays as it is. Where it has not, it goes on, and the
/// next four bytes are the check of that chunk.
pub proof fn lemma_parsed_chunk(
    d: DecoderModel,
    kind: Seq<u8>,
    covered: Seq<u8>,
    data: Seq<u8>,
    buf: Seq<u8>,
)
    ensures
        ({
            let next = parse(d, kind, covered, data).next;
            match parse(d, kind, covered, data).outcome {
                Err(_) => updated(next, buf) == (Update {
                    after: next,
                    outcome: Ok((0, DecodedModel::Nothing)),
                }),
                Ok(_) => {
                    &&& next.phase == (Phase::Check { kind, covered, seen: Seq::empty() })
                    &&& buf.len() >= 4 ==> {
                        let step = check(next, kind, covered, be32(buf.take(4)));
                        &&& updated(next, buf).after == step.next
                        &&& updated(next, buf).outcome == (match step.outcome {
                            Ok(decoded) => Ok((4nat, decoded)),
                            Err(error) => Err(error),
                        })
                    }
                },
            }
        }),
{
    let next = parse(d, kind, covered, data).next;
    if parse(d, kind, covered, data).outcome is Err {
        lemma_failed_decoder_rests(next, buf);
    } else if buf.len() >= 4 {
        lemma_four_check_bytes(next, kind, covered, buf);
    }
}

/// A chunk begins with its length and its type, whatever it is. Eight bytes are taken.
pub proof fn lemma_chunk_begins(
    d: DecoderModel,
    kind: Seq<u8>,
    data: Seq<u8>,
    stored: u32,
    rest: Seq<u8>,
)
    requires
        d.phase == (Phase::Length { seen: Seq::empty() }),
        kind.len() == 4,
        data.len() <= u32::MAX,
    ensures
        updated(d, chunk_bytes(kind, data, stored) + rest) == (Update {
            after: chunk_begun(d, kind, data.len()),
            outcome: Ok((8, DecodedModel::ChunkBegin(data.len() as u32, kind))),
        }),
{
    let buf = chunk_bytes(kind, data, stored) + rest;
    let length = data.len() as u32;
    assert(be_bytes(length).is_prefix_of(buf));
    lemma_length(d, be_bytes(length), buf);
    lemma_number_round_trip(length);
    assert(kind.is_prefix_of(buf.skip(4)));
    lemma_type(d.at(Phase::Type { length, seen: Seq::empty() }), length, kind, buf.skip(4));
}

/// What a chunk comes to when its check is read: its end is reported where the check is that of its
/// type and its data, and decoding fails otherwise, with both checks.
pub open spec fn chunk_end(
    d: DecoderModel,
    kind: Seq<u8>,
    data: Seq<u8>,
    stored: u32,
    taken: nat,
) -> Update {
    if stored == crc32(kind + data) {
        Update {
            after: chunk_done(d, kind),
            outcome: Ok(
                (
                    taken,
                    if kind == iend() {
                        DecodedModel::ImageEnd
                    } else {
                        DecodedModel::ChunkComplete(stored, kind)
                    },
                ),
            ),
        }
    } else {
        Update {
            after: d.at(Phase::Failed),
            outcome: Err(
                ErrorModel::CrcMismatch {
                    recover: 1,
                    crc_val: stored,
                    crc_sum: crc32(kind + data),
                    chunk: kind,
                },
            ),
        }
    }
}

/// Types of chunks that the decoder makes no use of.
pub open spec fn is_skipped(kind: Seq<u8>) -> bool {
    kind != ihdr() && kind != plte() && kind != trns() && kind != idat()
}

/// The data of a chunk that is skipped.
#[verifier::rlimit(40)]
proof fn lemma_skip(
    d: DecoderModel,
    kind: Seq<u8>,
    covered: Seq<u8>,
    held: Seq<u8>,
    data: Seq<u8>,
    buf: Seq<u8>,
)
    requires
        d.phase == (Phase::Read { kind, covered, left: data.len(), data: held }),
        is_skipped(kind),
        data.is_prefix_of(buf),
        data.len() < buf.len(),
    ensures
        updated(d, buf) == plus_taken(
            data.len(),
            updated(
                d.at(Phase::Check { kind, covered: covered + data, seen: Seq::empty() }),
                buf.skip(data.len() as int),
            ),
        ),
    decreases data.len(), rank(d),
{
    reveal_with_fuel(updated, 3);
    if data.len() == 0 {
        assert(covered + data =~= covered);
        assert(buf.skip(0) =~= buf);
    } else if held.len() >= CHUNCK_BUFFER_SIZE {
        let none = Seq::<u8>::empty();
        let next = d.at(Phase::Read { kind, covered, left: data.len(), data: none });
        lemma_skip(next, kind, covered, none, data, buf);
    } else {
        let more = covered.push(buf[0]);
        let tail = data.skip(1);
        assert(more + tail =~= covered + data);
        assert(buf.skip(1).skip(tail.len() as int) =~= buf.skip(data.len() as int));
        if data.len() == 1 {
            assert(more =~= covered + data);
        } else {
            let held = held.push(buf[0]);
            let next = d.at(Phase::Read { kind, covered: more, left: tail.len(), data: held });
            lemma_skip(next, kind, more, held, tail, buf.skip(1));
        }
    }
}

/// A chunk that the decoder makes no use of leaves nothing behind, however long it is, but for the
/// note that the image has ended: once its begin has been reported, the next update takes all of
/// it, and its end is reported, or the failure of its check.
#[verifier::rlimit(40)]
pub proof fn lemma_chunk_is_skipped(
    d: DecoderModel,
    kind: Seq<u8>,
    data: Seq<u8>,
    stored: u32,
    rest: Seq<u8>,
)
    requires
        d.phase == (Phase::Length { seen: Seq::empty() }),
        kind.len() == 4,
        is_skipped(kind),
        data.len() <= u32::MAX,
    ensures
        ({
            let whole = chunk_bytes(kind, data, stored) + rest;
            updated(updated(d, whole).after, whole.skip(8)) == chunk_end(
                d,
                kind,
                data,
                stored,
                data.len() + 4,
            )
        }),
{
    let whole = chunk_bytes(kind, data, stored) + rest;
    let buf = whole.skip(8);
    lemma_chunk_begins(d, kind, data, stored, rest);
    let begun = updated(d, whole).after;
    assert(data.is_prefix_of(buf));
    lemma_skip(begun, kind, kind, Seq::empty(), data, buf);
    let tail = buf.skip(data.len() as int);
    let covered = kind + data;
    assert(be_bytes(stored).is_prefix_of(tail));
    lemma_check(
        d.at(Phase::Check { kind, covered, seen: Seq::empty() }),
        kind,
        covered,
        stored,
        tail,
    );
}

/// The data of a chunk that is held as a whole.
#[verifier::rlimit(40)]
proof fn lemma_hold(d: DecoderModel, kind: Seq<u8>, data: Seq<u8>, stored: u32, rest: Seq<u8>)
    requires
        d.phase == (Phase::Length { seen: Seq::empty() }),
        kind.len() == 4,
        kind != idat(),
        1 <= data.len() <= CHUNCK_BUFFER_SIZE,
    ensures
        ({
            let whole = chunk_bytes(kind, data, stored) + rest;
            let full = d.at(Phase::Full { kind, covered: kind + data, left: 0, data });
            let tail = whole.skip(8 + data.len() as int);
            &&& tail.len() > 0
            &&& be_bytes(stored).is_prefix_of(tail)
            &&& tick(full, tail[0]) == parse(full, kind, kind + data, data)
            &&& updated(updated(d, whole).after, whole.skip(8)) == plus_taken(
                data.len(),
                updated(full, tail),
            )
        }),
{
    let whole = chunk_bytes(kind, data, stored) + rest;
    let buf = whole.skip(8);
    lemma_chunk_begins(d, kind, data, stored, rest);
    let begun = updated(d, whole).after;
    let none = Seq::<u8>::empty();
    lemma_read_run(begun, kind, kind, data.len(), none, buf, data.len());
    assert(buf.take(data.len() as int) =~= data);
    assert(none + data =~= data);
    assert(buf.skip(data.len() as int) =~= whole.skip(8 + data.len() as int));
    assert(be_bytes(stored).is_prefix_of(whole.skip(8 + data.len() as int)));
}

/// The data of a header chunk.
pub open spec fn header_bytes(info: InfoModel) -> Seq<u8> {
    be_bytes(info.width) + be_bytes(info.height) + seq![
        info.bit_depth,
        info.color_type.code_spec(),
        0u8,
        0u8,
        if info.interlaced {
            1u8
        } else {
            0u8
        },
    ]
}

/// A header is read as it was written, for every description of an image that a header can give.
pub proof fn lemma_header_round_trip(info: InfoModel)
    requires
        is_bit_depth(info.bit_depth),
        info.trns is None,
        info.palette is None,
    ensures
        header(header_bytes(info)) == Ok::<InfoModel, ErrorModel>(info),
{
    let data = header_bytes(info);
    lemma_number_round_trip(info.width);
    lemma_number_round_trip(info.height);
    assert(data.take(4) =~= be_bytes(info.width));
    assert(data.subrange(4, 8) =~= be_bytes(info.height));
}

/// A header chunk is reported in three updates, its begin, what it says, and its end; what it says
/// is then known of the image, and nothing else.
#[verifier::rlimit(40)]
pub proof fn lemma_header_chunk(d: DecoderModel, info: InfoModel, stored: u32, rest: Seq<u8>)
    requires
        d.phase == (Phase::Length { seen: Seq::empty() }),
        is_bit_depth(info.bit_depth),
        info.trns is None,
        info.palette is None,
    ensures
        ({
            let whole = chunk_bytes(ihdr(), header_bytes(info), stored) + rest;
            let second = updated(updated(d, whole).after, whole.skip(8));
            &&& second.outcome == Ok::<(nat, DecodedModel), ErrorModel>(
                (
                    13,
                    DecodedModel::Header(
                        info.width,
                        info.height,
                        info.bit_depth,
                        info.color_type,
                        info.interlaced,
                    ),
                ),
            )
            &&& updated(second.after, whole.skip(21)) == chunk_end(
                DecoderModel { info: Some(info), ..d },
                ihdr(),
                header_bytes(info),
                stored,
                4,
            )
        }),
{
    let kind = ihdr();
    let data = header_bytes(info);
    let whole = chunk_bytes(kind, data, stored) + rest;
    let tail = whole.skip(21);
    let covered = kind + data;
    lemma_header_round_trip(info);
    lemma_hold(d, kind, data, stored, rest);
    let known = DecoderModel { info: Some(info), ..d };
    lemma_check(
        known.at(Phase::Check { kind, covered, seen: Seq::empty() }),
        kind,
        covered,
        stored,
        tail,
    );
}

/// A palette that can be held is kept as it was written, where the header has come before it; it
/// is otherwise passed over.
pub proof fn lemma_palette_chunk(d: DecoderModel, data: Seq<u8>, stored: u32, rest: Seq<u8>)
    requires
        d.phase == (Phase::Length { seen: Seq::empty() }),
        1 <= data.len() <= CHUNCK_BUFFER_SIZE,
    ensures
        ({
            let whole = chunk_bytes(plte(), data, stored) + rest;
            updated(updated(d, whole).after, whole.skip(8)) == chunk_end(
                DecoderModel { info: with_palette(d.info, data), ..d },
                plte(),
                data,
                stored,
                data.len() + 4,
            )
        }),
{
    let kind = plte();
    let whole = chunk_bytes(kind, data, stored) + rest;
    let tail = whole.skip(8 + data.len() as int);
    let covered = kind + data;
    lemma_hold(d, kind, data, stored, rest);
    let known = DecoderModel { info: with_palette(d.info, data), ..d };
    lemma_check(
        known.at(Phase::Check { kind, covered, seen: Seq::empty() }),
        kind,
        covered,
        stored,
        tail,
    );
}

/// Transparency that can be held is kept as it was written, where the image has a palette; decoding
/// fails otherwise.
pub proof fn lemma_transparency_chunk(d: DecoderModel, data: Seq<u8>, stored: u32, rest: Seq<u8>)
    requires
        d.phase == (Phase::Length { seen: Seq::empty() }),
        1 <= data.len() <= CHUNCK_BUFFER_SIZE,
    ensures
        ({
            let whole = chunk_bytes(trns(), data, stored) + rest;
            updated(updated(d, whole).after, whole.skip(8)) == (match with_trns(d.info, data) {
                Ok(info) => chunk_end(
                    DecoderModel { info: Some(info), ..d },
                    trns(),
                    data,
                    stored,
                    data.len() + 4,
                ),
                Err(error) => Update { after: d.at(Phase::Failed), outcome: Err(error) },
            })
        }),
{
    let kind = trns();
    let whole = chunk_bytes(kind, data, stored) + rest;
    let tail = whole.skip(8 + data.len() as int);
    let covered = kind + data;
    lemma_hold(d, kind, data, stored, rest);
    if let Ok(info) = with_trns(d.info, data) {
        let known = DecoderModel { info: Some(info), ..d };
        lemma_check(
            known.at(Phase::Check { kind, covered, seen: Seq::empty() }),
            kind,
            covered,
            stored,
            tail,
        );
    }
}

/// The bytes of image data that were taken from the file and that the decompressor has not used.
pub open spec fn unused(d: DecoderModel) -> Seq<u8> {
    match d.phase {
        Phase::Read { data, .. } => data,
        Phase::Full { data, .. } => data,
        Phase::Inflate { data, at, .. } => data.skip(at as int),
        _ => Seq::empty(),
    }
}

/// The decompressor is given the image data as it stands in the file: a step that takes a byte adds
/// it to the unused bytes, the decompressor is given all unused bytes and the first of them, as
/// many as it used, are dropped, and no other step changes them. This holds of a decompressor that
/// uses no more than it is given, as `Inflater::inflate` does.
pub proof fn lemma_image_data_in_order(d: DecoderModel, byte: u8)
    requires
        decoder_sound(d),
        in_image_data(d),
    ensures
        ({
            let step = tick(d, byte);
            &&& d.phase !is Inflate ==> unused(step.next) == (if step.took {
                unused(d).push(byte)
            } else {
                unused(d)
            })
            &&& d.phase is Inflate && step.outcome is Ok ==> {
                let room = row_room(row_lacks(d)->0);
                let reply = inflate_reply(d.calls, unused(d), room);
                &&& step.next.calls == d.calls.push((unused(d), room))
                &&& inflate_meaning(reply, unused(d).len()) matches Some((ended, used, written))
                &&& step.outcome == Ok::<DecodedModel, ErrorModel>(DecodedModel::ImageData(written))
                &&& used <= unused(d).len() ==> unused(step.next) == unused(d).skip(used as int)
            }
        }),
{
    let step = tick(d, byte);
    match d.phase {
        Phase::Full { data, .. } => {
            assert(data.skip(0) =~= data);
        },
        Phase::Read { data, left, .. } => {
            if left == 0 {
                assert(data =~= Seq::<u8>::empty());
            }
        },
        Phase::Inflate { data, at, .. } => {
            let input = data.skip(at as int);
            if step.outcome is Ok {
                let reply = inflate_reply(d.calls, input, row_room(row_lacks(d)->0));
                let (_, used, _) = inflate_meaning(reply, input.len())->0;
                if used <= input.len() {
                    assert(input.skip(used as int) =~= data.skip((at + used) as int));
                    assert(unused(step.next) =~= input.skip(used as int));
                }
            }
        },
        _ => {},
    }
}

/// What the decompressor wrote over these calls.
pub open spec fn written_by(calls: Seq<(Seq<u8>, nat)>) -> Seq<u8>
    decreases calls.len(),
{
    if calls.len() == 0 {
        Seq::empty()
    } else {
        let before = calls.drop_last();
        let (input, room) = calls.last();
        let (_, _, written) = inflate_reply(before, input, room);
        written_by(before) + written
    }
}

/// The image data of what is reported; none, where it is no image data.
pub open spec fn data_of(decoded: DecodedModel) -> Seq<u8> {
    match decoded {
        DecodedModel::ImageData(data) => data,
        _ => Seq::empty(),
    }
}

/// What an update reports as image data is what the decompressor wrote meanwhile: nothing is kept
/// back, and nothing is reported twice.
pub proof fn lemma_update_delivers(d: DecoderModel, buf: Seq<u8>)
    ensures
        updated(d, buf).outcome matches Ok((_, decoded)) ==> written_by(updated(d, buf).after.calls)
            == written_by(d.calls) + data_of(decoded),
    decreases buf.len(), rank(d),
{
    let none = Seq::<u8>::empty();
    assert(written_by(d.calls) + none =~= written_by(d.calls));
    if buf.len() > 0 && d.phase !is Failed {
        let step = tick(d, buf[0]);
        if step.outcome == Ok::<DecodedModel, ErrorModel>(DecodedModel::Nothing) {
            if step.took {
                lemma_update_delivers(step.next, buf.skip(1));
            } else {
                lemma_update_delivers(step.next, buf);
            }
        } else if let Phase::Inflate { data, at, .. } = d.phase {
            if step.outcome is Ok {
                let call = (data.skip(at as int), row_room(row_lacks(d)->0));
                assert(d.calls.push(call).drop_last() =~= d.calls);
                assert(d.calls.push(call).last() == call);
            }
        }
    }
}

} // verus!
