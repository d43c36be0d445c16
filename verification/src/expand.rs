//! Rows in which each sample has a byte of its own.
use crate::error::Unsupported;
use crate::reader_model::{
    expand_gray, expand_indexed, first_beyond, gray_expanded, gray_scale, opacity, palette_expanded,
};
use crate::types::Info;
use crate::utils::{
    lemma_sample_bound, lemma_sample_inside, packs, per_byte_spec, room_for, sample, sample_at,
    sample_mask, unpack_bits,
};
use vstd::prelude::*;

verus! {

/// Where no sample lies beyond a limit, each is below it.
pub proof fn lemma_none_beyond(buf: Seq<u8>, bit_depth: u8, from: int, to: int, limit: int)
    requires
        first_beyond(buf, bit_depth, from, to, limit) is None,
    ensures
        forall|j: int| from <= j < to ==> #[trigger] sample(buf, bit_depth, j) < limit,
    decreases to - from,
{
    if from < to {
        lemma_none_beyond(buf, bit_depth, from + 1, to, limit);
    }
}

/// The first palette index that lies beyond the palette, among the pixels that `buf` has room for.
fn index_beyond(buf: &Vec<u8>, bit_depth: u8, channels: usize, limit: usize) -> (found: Option<u8>)
    requires
        channels >= 1,
        packs(bit_depth),
    ensures
        found == first_beyond(
            buf@,
            bit_depth,
            0,
            room_for(buf@, channels as int),
            limit as int,
        ),
{
    let pixels: usize = buf.len() / channels;
    let mut j: usize = 0;
    while j < pixels
        invariant
            channels >= 1,
            packs(bit_depth),
            pixels == buf@.len() / (channels as nat),
            j <= pixels,
            first_beyond(buf@, bit_depth, 0, pixels as int, limit as int) == first_beyond(
                buf@,
                bit_depth,
                j as int,
                pixels as int,
                limit as int,
            ),
        decreases pixels - j,
    {
        proof {
            lemma_sample_inside(
                buf@.len() as int,
                channels as int,
                per_byte_spec(bit_depth),
                j as int,
            );
        }
        let value = sample_at(buf.as_slice(), bit_depth, j);
        if value as usize >= limit {
            return Some(value);
        }
        j = j + 1;
    }
    None
}

/// Replaces the palette indices of a row by the colors they stand for.
pub fn expand_paletted(buf: &mut Vec<u8>, info: &Info) -> (result: Result<(), Unsupported>)
    ensures
        match expand_indexed(old(buf)@, info@) {
            Ok(expanded) => result is Ok && final(buf)@ == expanded,
            Err(what) => result == Err::<(), Unsupported>(what) && final(buf)@ == old(buf)@,
        },
{
    let ghost packed = buf@;
    let depth = info.bit_depth;
    let palette = match &info.palette {
        Some(palette) => palette,
        None => return Err(Unsupported::MissingPalette),
    };
    if depth != 1 && depth != 2 && depth != 4 && depth != 8 {
        return Err(Unsupported::SampleDepth(depth));
    }
    let entries: usize = palette.len() / 3;
    match &info.trns {
        Some(trns) => {
            if let Some(index) = index_beyond(buf, depth, 4, entries) {
                return Err(Unsupported::PaletteIndex(index));
            }
            let table = rgba_table(palette, trns, entries);
            proof {
                let pixels = room_for(packed, 4);
                lemma_none_beyond(packed, depth, 0, pixels, entries as int);
                assert forall|j: int| 0 <= j < pixels implies (1 + #[trigger] sample(
                    packed,
                    depth,
                    j,
                )) * 4 <= table@.len() by {}
            }
            unpack_bits(buf, 4, depth, &table);
            proof {
                let whole = palette_expanded(packed, depth, palette@, Some(trns@));
                assert forall|p: int| 0 <= p < packed.len() implies buf@[p] == whole[p] by {
                    if p < room_for(packed, 4) * 4 {
                        let q = sample(packed, depth, p / 4) * 4 + p % 4;
                        assert(sample(packed, depth, p / 4) < entries);
                        assert(buf@[p] == table@[q]);
                    }
                }
                assert(buf@ =~= whole);
            }
        },
        None => {
            if let Some(index) = index_beyond(buf, depth, 3, entries) {
                return Err(Unsupported::PaletteIndex(index));
            }
            proof {
                let pixels = room_for(packed, 3);
                lemma_none_beyond(packed, depth, 0, pixels, entries as int);
                assert forall|j: int| 0 <= j < pixels implies (1 + #[trigger] sample(
                    packed,
                    depth,
                    j,
                )) * 3 <= palette@.len() by {}
            }
            unpack_bits(buf, 3, depth, palette);
            assert(buf@ =~= palette_expanded(packed, depth, palette@, None));
        },
    }
    Ok(())
}

/// The colors of a palette, each followed by its opacity.
fn rgba_table(palette: &Vec<u8>, trns: &Vec<u8>, entries: usize) -> (table: Vec<u8>)
    requires
        entries == palette@.len() / 3,
    ensures
        table@.len() >= 4 * entries || table@.len() == 1024,
        table@.len() <= 1024,
        table@.len() % 4 == 0,
        forall|q: int|
            0 <= q < table@.len() ==> #[trigger] table@[q] == (if q % 4 == 3 {
                opacity(trns@, q / 4)
            } else {
                palette@[3 * (q / 4) + q % 4]
            }),
{
    let count: usize = if entries < 256 { entries } else { 256 };
    let mut table: Vec<u8> = Vec::new();
    let mut i: usize = 0;
    while i < count
        invariant
            count <= 256,
            count <= entries,
            entries == palette@.len() / 3,
            i <= count,
            table@.len() == 4 * i,
            forall|q: int|
                0 <= q < table@.len() ==> #[trigger] table@[q] == (if q % 4 == 3 {
                    opacity(trns@, q / 4)
                } else {
                    palette@[3 * (q / 4) + q % 4]
                }),
        decreases count - i,
    {
        let alpha: u8 = if i < trns.len() { trns[i] } else { 0xFF };
        table.push(palette[3 * i]);
        table.push(palette[3 * i + 1]);
        table.push(palette[3 * i + 2]);
        table.push(alpha);
        i = i + 1;
    }
    table
}

/// Spreads the gray samples of a row out.
pub fn expand_gray_u8(buf: &mut Vec<u8>, info: &Info) -> (result: Result<(), Unsupported>)
    ensures
        match expand_gray(old(buf)@, info@) {
            Ok(expanded) => result is Ok && final(buf)@ == expanded,
            Err(what) => result == Err::<(), Unsupported>(what) && final(buf)@ == old(buf)@,
        },
{
    let ghost packed = buf@;
    let depth = info.bit_depth;
    if depth != 1 && depth != 2 && depth != 4 && depth != 8 {
        return Err(Unsupported::SampleDepth(depth));
    }
    match &info.trns {
        Some(trns) => {
            if trns.len() < 2 {
                return Err(Unsupported::TransparencyLength);
            }
            let table = gray_alpha_table(depth, trns[1]);
            proof {
                assert forall|j: int| 0 <= j < room_for(packed, 2) implies (1 + #[trigger] sample(
                    packed,
                    depth,
                    j,
                )) * 2 <= table@.len() by {
                    lemma_sample_bound(packed, depth, j);
                }
            }
            unpack_bits(buf, 2, depth, &table);
            proof {
                let whole = gray_expanded(packed, depth, Some(trns@));
                assert forall|p: int| 0 <= p < packed.len() implies buf@[p] == whole[p] by {
                    if p < room_for(packed, 2) * 2 {
                        let q = sample(packed, depth, p / 2) * 2 + p % 2;
                        lemma_sample_bound(packed, depth, p / 2);
                        assert(buf@[p] == table@[q]);
                    }
                }
                assert(buf@ =~= whole);
            }
        },
        None => {
            let table = identity_table();
            unpack_bits(buf, 1, depth, &table);
            assert(buf@ =~= gray_expanded(packed, depth, None));
        },
    }
    Ok(())
}

/// The gray samples of a bit depth, scaled, each followed by its opacity.
fn gray_alpha_table(depth: u8, transparent: u8) -> (table: Vec<u8>)
    requires
        packs(depth),
    ensures
        table@.len() == 2 * (sample_mask(depth) + 1),
        forall|q: int|
            0 <= q < table@.len() ==> #[trigger] table@[q] == (if q % 2 == 0 {
                ((q / 2) * gray_scale(depth)) as u8
            } else if q / 2 == transparent {
                0
            } else {
                0xFF
            }),
{
    let largest: u16 = match depth {
        1 => 1,
        2 => 3,
        4 => 15,
        _ => 255,
    };
    let scaling_factor: u16 = 255 / largest;
    let mut table: Vec<u8> = Vec::new();
    let mut i: u16 = 0;
    while i <= largest
        invariant
            packs(depth),
            largest == sample_mask(depth),
            scaling_factor == gray_scale(depth),
            i <= largest + 1,
            table@.len() == 2 * i,
            forall|q: int|
                0 <= q < table@.len() ==> #[trigger] table@[q] == (if q % 2 == 0 {
                    ((q / 2) * gray_scale(depth)) as u8
                } else if q / 2 == transparent {
                    0
                } else {
                    0xFF
                }),
        decreases largest + 1 - i,
    {
        assert(0 <= i * scaling_factor <= 255) by {
            assert(depth == 1 ==> i * 255 <= 255);
            assert(depth == 2 ==> i * 85 <= 255);
            assert(depth == 4 ==> i * 17 <= 255);
            assert(depth == 8 ==> i * 1 <= 255);
        }
        table.push((i * scaling_factor) as u8);
        table.push(if i == transparent as u16 { 0 } else { 0xFF });
        i = i + 1;
    }
    table
}

/// Each byte at its own position.
fn identity_table() -> (table: Vec<u8>)
    ensures
        table@.len() == 256,
        forall|i: int| 0 <= i < 256 ==> #[trigger] table@[i] == i,
{
    let mut table: Vec<u8> = Vec::new();
    let mut i: u16 = 0;
    while i < 256
        invariant
            i <= 256,
            table@.len() == i,
            forall|k: int| 0 <= k < i ==> #[trigger] table@[k] == k,
        decreases 256 - i,
    {
        table.push(i as u8);
        i = i + 1;
    }
    table
}

} // verus!
