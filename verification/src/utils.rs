//! Samples that share a byte.
use vstd::prelude::*;

verus! {

/// The bit depths at which a byte holds whole samples.
pub open spec fn packs(bit_depth: u8) -> bool {
    bit_depth == 1 || bit_depth == 2 || bit_depth == 4 || bit_depth == 8
}

/// The largest sample of a bit depth.
pub open spec fn sample_mask(bit_depth: u8) -> u8 {
    if bit_depth == 1 {
        1
    } else if bit_depth == 2 {
        3
    } else if bit_depth == 4 {
        15
    } else {
        255
    }
}

/// The number of samples in a byte.
pub open spec fn per_byte_spec(bit_depth: u8) -> int {
    if bit_depth == 1 {
        8
    } else if bit_depth == 2 {
        4
    } else if bit_depth == 4 {
        2
    } else {
        1
    }
}

/// The sample at position `index`: samples lie side by side, the first in the highest bits.
pub open spec fn sample(bytes: Seq<u8>, bit_depth: u8, index: int) -> u8 {
    let per_byte = per_byte_spec(bit_depth);
    let shift = 8 - bit_depth * (1 + index % per_byte);
    (bytes[index / per_byte] >> (shift as u8)) & sample_mask(bit_depth)
}

/// The number of pixels that a buffer has room for.
pub open spec fn room_for(buf: Seq<u8>, channels: int) -> int {
    buf.len() as int / channels
}

/// `buf` with its samples spread out: the pixel at position `j` takes `channels` bytes, those
/// that `table` holds for the sample at position `j`. Bytes after the last whole pixel stay.
pub open spec fn unpacked(buf: Seq<u8>, channels: int, bit_depth: u8, table: Seq<u8>) -> Seq<u8> {
    Seq::new(
        buf.len(),
        |p: int|
            if p < room_for(buf, channels) * channels {
                table[sample(buf, bit_depth, p / channels) * channels + p % channels]
            } else {
                buf[p]
            },
    )
}

/// A sample is at most the mask.
pub proof fn lemma_sample_bound(bytes: Seq<u8>, bit_depth: u8, index: int)
    ensures
        sample(bytes, bit_depth, index) <= sample_mask(bit_depth),
{
    let per_byte = per_byte_spec(bit_depth);
    let shift = 8 - bit_depth * (1 + index % per_byte);
    let byte: u8 = bytes[index / per_byte] >> (shift as u8);
    let mask = sample_mask(bit_depth);
    assert(byte & mask <= mask) by (bit_vector);
}

/// A pixel that a buffer has room for has its sample inside the buffer.
pub proof fn lemma_sample_inside(len: int, channels: int, per_byte: int, index: int)
    requires
        channels >= 1,
        per_byte >= 1,
        0 <= index < len / channels,
    ensures
        0 <= index / per_byte < len,
        0 <= index % per_byte < per_byte,
{
    assert(len / channels <= len) by (nonlinear_arith)
        requires
            channels >= 1,
            len >= 0 || len / channels > 0,
    ;
    assert(0 <= index / per_byte <= index) by (nonlinear_arith)
        requires
            per_byte >= 1,
            index >= 0,
    ;
    assert(0 <= index % per_byte < per_byte) by (nonlinear_arith)
        requires
            per_byte >= 1,
    ;
}

/// The sample at position `index`.
pub fn sample_at(bytes: &[u8], bit_depth: u8, index: usize) -> (value: u8)
    requires
        packs(bit_depth),
        index as int / per_byte_spec(bit_depth) < bytes@.len(),
    ensures
        value == sample(bytes@, bit_depth, index as int),
{
    let per_byte: usize = match bit_depth {
        1 => 8,
        2 => 4,
        4 => 2,
        _ => 1,
    };
    let mask: u8 = match bit_depth {
        1 => 1,
        2 => 3,
        4 => 15,
        _ => 255,
    };
    let place: u8 = (index % per_byte) as u8;
    proof {
        assert(bit_depth * (1 + place) <= 8) by {
            assert(bit_depth == 1 ==> per_byte == 8);
            assert(bit_depth == 2 ==> per_byte == 4);
            assert(bit_depth == 4 ==> per_byte == 2);
            assert(bit_depth == 8 ==> per_byte == 1);
        }
        assert(bit_depth * (1 + place) >= 1);
    }
    let shift: u8 = 8 - bit_depth * (1 + place);
    (bytes[index / per_byte] >> shift) & mask
}

/// Spreads the samples of a buffer out in place: each sample makes room for the `channels` bytes
/// that `table` holds for it.
pub fn unpack_bits(buf: &mut Vec<u8>, channels: usize, bit_depth: u8, table: &Vec<u8>)
    requires
        1 <= channels <= 4,
        packs(bit_depth),
        forall|j: int|
            0 <= j < room_for(old(buf)@, channels as int) ==> (1 + #[trigger] sample(
                old(buf)@,
                bit_depth,
                j,
            )) * channels <= table@.len(),
    ensures
        final(buf)@ == unpacked(old(buf)@, channels as int, bit_depth, table@),
{
    let ghost packed = buf@;
    let len = buf.len();
    let pixels: usize = len / channels;
    let ghost whole = unpacked(packed, channels as int, bit_depth, table@);
    let mut out: Vec<u8> = Vec::with_capacity(len);
    let mut j: usize = 0;
    assert(pixels * channels <= len) by (nonlinear_arith)
        requires
            pixels == len / channels,
            channels >= 1,
    ;
    while j < pixels
        invariant
            1 <= channels <= 4,
            packs(bit_depth),
            buf@ == packed,
            len == packed.len(),
            pixels == len / channels,
            pixels * channels <= len,
            j <= pixels,
            out@.len() == j * channels,
            whole == unpacked(packed, channels as int, bit_depth, table@),
            out@ == whole.take(out@.len() as int),
            forall|j: int|
                0 <= j < room_for(packed, channels as int) ==> (1 + #[trigger] sample(
                    packed,
                    bit_depth,
                    j,
                )) * channels <= table@.len(),
        decreases pixels - j,
    {
        proof {
            lemma_sample_inside(len as int, channels as int, per_byte_spec(bit_depth), j as int);
        }
        let value = sample_at(buf.as_slice(), bit_depth, j);
        let mut c: usize = 0;
        assert((1 + value) * channels == value * channels + channels) by (nonlinear_arith);
        assert((j + 1) * channels == j * channels + channels) by (nonlinear_arith);
        assert((j + 1) * channels <= pixels * channels) by (nonlinear_arith)
            requires
                j < pixels,
        ;
        assert(value * channels <= 255 * 4) by (nonlinear_arith)
            requires
                value <= 255,
                channels <= 4,
        ;
        while c < channels
            invariant
                1 <= channels <= 4,
                len == packed.len(),
                pixels == len / channels,
                pixels * channels <= len,
                j < pixels,
                (j + 1) * channels == j * channels + channels,
                (j + 1) * channels <= pixels * channels,
                c <= channels,
                out@.len() == j * channels + c,
                value == sample(packed, bit_depth, j as int),
                0 <= value * channels <= 255 * 4,
                value * channels + channels <= table@.len(),
                whole == unpacked(packed, channels as int, bit_depth, table@),
                out@ == whole.take(out@.len() as int),
            decreases channels - c,
        {
            let ghost p = out@.len() as int;
            proof {
                assert(p / (channels as int) == j && p % (channels as int) == c) by {
                    vstd::arithmetic::div_mod::lemma_fundamental_div_mod_converse(
                        p,
                        channels as int,
                        j as int,
                        c as int,
                    );
                }
            }
            out.push(table[(value as usize) * channels + c]);
            assert(out@ =~= whole.take(out@.len() as int));
            c = c + 1;
        }
        j = j + 1;
    }
    let mut p: usize = pixels * channels;
    while p < len
        invariant
            buf@ == packed,
            len == packed.len(),
            pixels == len / channels,
            pixels * channels <= p <= len,
            out@.len() == p,
            whole == unpacked(packed, channels as int, bit_depth, table@),
            out@ == whole.take(out@.len() as int),
        decreases len - p,
    {
        out.push(buf[p]);
        assert(out@ =~= whole.take(out@.len() as int));
        p = p + 1;
    }
    assert(out@ =~= whole);
    *buf = out;
}

} // verus!
