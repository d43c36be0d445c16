//! The decompressor of the image data.
use miniz_oxide::inflate::stream::InflateState;
use miniz_oxide::{DataFormat, MZFlush};
use vstd::prelude::*;

verus! {

/// `miniz_oxide::inflate::stream::InflateState`: the state of a decompressor between two calls.
/// Nothing is said of what is inside.
#[verifier::external_type_specification]
#[verifier::external_body]
pub struct ExInflateState(InflateState);

/// The state that a decompressor of a zlib stream is in after these calls of
/// `miniz_oxide::inflate::stream::inflate` without flushing: the bytes that each call was given,
/// and how many it had room to write.
pub uninterp spec fn state_after(calls: Seq<(Seq<u8>, nat)>) -> InflateState;

/// What `miniz_oxide::inflate::stream::inflate` replies, without flushing, to the bytes `input`
/// and room for `room` bytes, after these calls on a zlib stream: the status code, the number of
/// bytes used, and the bytes written.
pub uninterp spec fn inflate_reply(
    calls: Seq<(Seq<u8>, nat)>,
    input: Seq<u8>,
    room: nat,
) -> (i32, nat, Seq<u8>);

/// The status code of a call that went well and has more to come.
pub const STATUS_OK: i32 = 0;

/// The status code of a call that reached the end of the stream.
pub const STATUS_STREAM_END: i32 = 1;

/// The status code of a call that found nothing to read.
pub const STATUS_BUF: i32 = -5;

/// `InflateState::new_boxed` of `miniz_oxide`, for the zlib format: the state of a decompressor
/// that has taken no call.
#[verifier::external_body]
fn new_state() -> (state: Box<InflateState>)
    ensures
        *state == state_after(Seq::empty()),
{
    InflateState::new_boxed(DataFormat::Zlib)
}

/// `miniz_oxide::inflate::stream::inflate`, without flushing, into the first `room` bytes of
/// `output`. The function keeps nothing but what is in the state: what it replies, and the state it
/// leaves, are determined by the calls that led to the state and by what this call is given. No
/// more bytes are used or written than there are. The status is handed on as the number that the
/// crate gives it. What the bytes of a zlib stream decompress to is left unsaid.
#[verifier::external_body]
fn inflate_stream(
    state: &mut InflateState,
    input: &[u8],
    output: &mut Vec<u8>,
    room: usize,
) -> (reply: (i32, usize, usize))
    requires
        room <= old(output)@.len(),
    ensures
        forall|calls: Seq<(Seq<u8>, nat)>|
            *old(state) == #[trigger] state_after(calls) ==> *final(state) == state_after(
                calls.push((input@, room as nat)),
            ),
        forall|calls: Seq<(Seq<u8>, nat)>|
            *old(state) == #[trigger] state_after(calls) ==> (
                reply.0,
                reply.1 as nat,
                final(output)@.take(reply.2 as int),
            ) == inflate_reply(calls, input@, room as nat),
        final(output)@.len() == old(output)@.len(),
        reply.1 <= input@.len(),
        reply.2 <= room,
{
    let result = miniz_oxide::inflate::stream::inflate(
        state,
        input,
        &mut output[..room],
        MZFlush::None,
    );
    let code = match result.status {
        Ok(status) => status as i32,
        Err(error) => error as i32,
    };
    (code, result.bytes_consumed, result.bytes_written)
}

/// What a reply means: whether the stream has ended, how many bytes were used, and the bytes
/// written; or nothing, where the stream is corrupt. To have nothing to read is no failure. Not
/// to get any further with bytes to read is one.
pub open spec fn inflate_meaning(reply: (i32, nat, Seq<u8>), given: nat) -> Option<
    (bool, nat, Seq<u8>),
> {
    let (code, used, written) = reply;
    if code == STATUS_STREAM_END {
        Some((true, used, written))
    } else if code == STATUS_OK && (given == 0 || used > 0 || written.len() > 0) {
        Some((false, used, written))
    } else if code == STATUS_BUF && given == 0 {
        Some((false, used, written))
    } else {
        None
    }
}

/// Tells what a reply of the decompressor means, for a call that was given `given` bytes.
pub fn interpret_reply(code: i32, used: usize, written: usize, given: usize) -> (meaning: Option<
    bool,
>)
    ensures
        forall|bytes: Seq<u8>|
            bytes.len() == written ==> #[trigger] inflate_meaning(
                (code, used as nat, bytes),
                given as nat,
            ) == (match meaning {
                Some(ended) => Some((ended, used as nat, bytes)),
                None => None,
            }),
{
    if code == STATUS_STREAM_END {
        Some(true)
    } else if code == STATUS_OK && (given == 0 || used > 0 || written > 0) {
        Some(false)
    } else if code == STATUS_BUF && given == 0 {
        Some(false)
    } else {
        None
    }
}

/// What is to be done with the bytes that are held of a chunk after some were decompressed.
#[derive(Clone, Copy, Debug, PartialEq, Eq, Structural)]
pub enum AfterInflate {
    /// The stream has ended before the bytes have.
    Corrupt,
    /// All are used: go on to the bytes of the chunk that follow.
    UsedUp,
    /// Go on from this position.
    From(usize),
}

/// What is to be done after `used` of the `held` bytes, those from position `at` on, were
/// decompressed to `written` bytes, where the chunk has `left` bytes more. What is held is used up
/// only once nothing more comes out of it, unless more follows.
pub open spec fn after_inflate_spec(
    ended: bool,
    at: nat,
    used: nat,
    written: nat,
    held: nat,
    left: nat,
) -> AfterInflate {
    if ended && at + used != held {
        AfterInflate::Corrupt
    } else if at + used == held && (written == 0 || left != 0) {
        AfterInflate::UsedUp
    } else {
        AfterInflate::From((at + used) as usize)
    }
}

/// Tells what is to be done after a part of what is held of a chunk was decompressed.
pub fn after_inflate(
    ended: bool,
    at: usize,
    used: usize,
    written: usize,
    held: usize,
    left: u32,
) -> (after: AfterInflate)
    requires
        at + used <= held,
    ensures
        after == after_inflate_spec(
            ended,
            at as nat,
            used as nat,
            written as nat,
            held as nat,
            left as nat,
        ),
{
    let n: usize = at + used;
    if ended && n != held {
        AfterInflate::Corrupt
    } else if n == held && (written == 0 || left != 0) {
        AfterInflate::UsedUp
    } else {
        AfterInflate::From(n)
    }
}

/// A decompressor of one zlib stream. Its view is the calls that it has taken.
pub struct Inflater {
    state: Box<InflateState>,
    calls: Ghost<Seq<(Seq<u8>, nat)>>,
}

impl View for Inflater {
    type V = Seq<(Seq<u8>, nat)>;

    closed spec fn view(&self) -> Seq<(Seq<u8>, nat)> {
        self.calls@
    }
}

impl Inflater {
    /// The state is the one that the calls lead to.
    pub closed spec fn wf(&self) -> bool {
        *self.state == state_after(self.calls@)
    }

    /// A decompressor at the start of a stream.
    pub fn new() -> (inflater: Inflater)
        ensures
            inflater.wf(),
            inflater@ == Seq::<(Seq<u8>, nat)>::empty(),
    {
        Inflater { state: new_state(), calls: Ghost(Seq::empty()) }
    }

    /// Decompresses from `input` into the first `room` bytes of `output`: whether the stream has
    /// ended, how many bytes were used, and how many were written. Nothing is returned where the
    /// stream is corrupt.
    pub fn inflate(&mut self, input: &[u8], output: &mut Vec<u8>, room: usize) -> (result: Option<
        (bool, usize, usize),
    >)
        requires
            old(self).wf(),
            room <= old(output)@.len(),
        ensures
            final(self).wf(),
            final(self)@ == old(self)@.push((input@, room as nat)),
            final(output)@.len() == old(output)@.len(),
            inflate_meaning(inflate_reply(old(self)@, input@, room as nat), input@.len())
                == (match result {
                Some((ended, used, written)) => Some(
                    (ended, used as nat, final(output)@.take(written as int)),
                ),
                None => None,
            }),
            result matches Some((ended, used, written)) ==> used <= input@.len() && written <= room,
    {
        let (code, used, written) = inflate_stream(&mut self.state, input, output, room);
        self.calls = Ghost(self.calls@.push((input@, room as nat)));
        match interpret_reply(code, used, written, input.len()) {
            Some(ended) => Some((ended, used, written)),
            None => None,
        }
    }
}

} // verus!
