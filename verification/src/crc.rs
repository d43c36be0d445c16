//! The cyclic redundancy check that guards a chunk.
use vstd::prelude::*;

verus! {

/// One step of the shift register, for one bit of the message.
pub open spec fn crc_shift(register: u32) -> u32 {
    if register & 1 == 1 {
        0xEDB88320u32 ^ (register >> 1)
    } else {
        register >> 1
    }
}

/// `steps` steps of the shift register.
pub open spec fn crc_shifts(register: u32, steps: nat) -> u32
    decreases steps,
{
    if steps == 0 {
        register
    } else {
        crc_shift(crc_shifts(register, (steps - 1) as nat))
    }
}

/// The register after the bytes of a message, which starts with all bits set.
pub open spec fn crc_register(bytes: Seq<u8>) -> u32
    decreases bytes.len(),
{
    if bytes.len() == 0 {
        0xFFFF_FFFFu32
    } else {
        crc_shifts(crc_register(bytes.drop_last()) ^ (bytes.last() as u32), 8)
    }
}

/// The CRC-32 of a message: the register, inverted.
pub open spec fn crc32(bytes: Seq<u8>) -> u32 {
    crc_register(bytes) ^ 0xFFFF_FFFFu32
}

/// A running CRC-32. Its view is the bytes that it covers.
pub struct Crc32 {
    register: u32,
    covered: Ghost<Seq<u8>>,
}

impl View for Crc32 {
    type V = Seq<u8>;

    closed spec fn view(&self) -> Seq<u8> {
        self.covered@
    }
}

impl Crc32 {
    /// The register is the one that the covered bytes lead to.
    pub closed spec fn wf(&self) -> bool {
        self.register == crc_register(self.covered@)
    }

    /// A check that covers nothing yet.
    pub fn new() -> (crc: Crc32)
        ensures
            crc.wf(),
            crc@ == Seq::<u8>::empty(),
    {
        Crc32 { register: 0xFFFF_FFFF, covered: Ghost(Seq::empty()) }
    }

    /// Starts over.
    pub fn reset(&mut self)
        ensures
            final(self).wf(),
            final(self)@ == Seq::<u8>::empty(),
    {
        self.register = 0xFFFF_FFFF;
        self.covered = Ghost(Seq::empty());
    }

    /// Covers the bytes of `buf` too.
    pub fn update(&mut self, buf: &[u8])
        requires
            old(self).wf(),
        ensures
            final(self).wf(),
            final(self)@ == old(self)@ + buf@,
    {
        let ghost before = self.covered@;
        let mut i: usize = 0;
        assert(before + buf@.take(0) =~= before);
        while i < buf.len()
            invariant
                i <= buf@.len(),
                self.covered@ == before + buf@.take(i as int),
                self.register == crc_register(self.covered@),
            decreases buf@.len() - i,
        {
            let start: u32 = self.register ^ (buf[i] as u32);
            let mut register: u32 = start;
            let mut step: u32 = 0;
            while step < 8
                invariant
                    step <= 8,
                    register == crc_shifts(start, step as nat),
                decreases 8 - step,
            {
                register = if register & 1 == 1 {
                    0xEDB88320u32 ^ (register >> 1)
                } else {
                    register >> 1
                };
                step = step + 1;
            }
            proof {
                let next = self.covered@.push(buf@[i as int]);
                assert(next.drop_last() =~= self.covered@);
                assert(next =~= before + buf@.take(i + 1));
            }
            self.register = register;
            self.covered = Ghost(self.covered@.push(buf@[i as int]));
            i = i + 1;
        }
        assert(buf@.take(buf@.len() as int) =~= buf@);
    }

    /// The CRC-32 of the bytes covered so far.
    pub fn checksum(&self) -> (sum: u32)
        requires
            self.wf(),
        ensures
            sum == crc32(self@),
    {
        self.register ^ 0xFFFF_FFFF
    }
}

} // verus!
