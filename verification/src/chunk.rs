//! Chunk types.
use vstd::prelude::*;

verus! {

/// The four bytes that name a chunk.
pub type ChunkType = [u8; 4];

/// Image header.
pub const IHDR: ChunkType = [73, 72, 68, 82];

/// Palette.
pub const PLTE: ChunkType = [80, 76, 84, 69];

/// Image data.
pub const IDAT: ChunkType = [73, 68, 65, 84];

/// Image trailer.
pub const IEND: ChunkType = [73, 69, 78, 68];

/// Transparency.
pub const TRNS: ChunkType = [116, 82, 78, 83];

/// The bytes of [`IHDR`].
pub open spec fn ihdr() -> Seq<u8> {
    seq![73u8, 72, 68, 82]
}

/// The bytes of [`PLTE`].
pub open spec fn plte() -> Seq<u8> {
    seq![80u8, 76, 84, 69]
}

/// The bytes of [`IDAT`].
pub open spec fn idat() -> Seq<u8> {
    seq![73u8, 68, 65, 84]
}

/// The bytes of [`IEND`].
pub open spec fn iend() -> Seq<u8> {
    seq![73u8, 69, 78, 68]
}

/// The bytes of [`TRNS`].
pub open spec fn trns() -> Seq<u8> {
    seq![116u8, 82, 78, 83]
}

/// The constants spell the names.
pub proof fn lemma_names()
    ensures
        IHDR@ == ihdr(),
        PLTE@ == plte(),
        IDAT@ == idat(),
        IEND@ == iend(),
        TRNS@ == trns(),
{
    assert(IHDR@ =~= ihdr());
    assert(PLTE@ =~= plte());
    assert(IDAT@ =~= idat());
    assert(IEND@ =~= iend());
    assert(TRNS@ =~= trns());
}

/// Whether two chunks are of the same type.
pub fn same_type(a: ChunkType, b: ChunkType) -> (same: bool)
    ensures
        same == (a@ == b@),
{
    let same = a[0] == b[0] && a[1] == b[1] && a[2] == b[2] && a[3] == b[3];
    proof {
        if same {
            assert(a@ =~= b@);
        }
    }
    same
}

} // verus!
