//! The little that is worth stating of the floppy driver: the status
//! register bits and the geometry arithmetic.  The port traffic itself
//! lives outside the library.

use vstd::prelude::*;

verus! {

/// Sectors per track of the drive geometry.
pub const FLOPPY_SECTORS_PER_TRACK: u32 = 18;

/// The main status register, as a plain bit set.
pub struct MsrStatus {
    pub bits: u8,
}

/// Request-for-master bit.
pub const MSR_RQM: u8 = 0x80;

/// Data-direction bit.
pub const MSR_DIO: u8 = 0x40;

impl MsrStatus {
    /// Overwrites the whole bit set.
    pub fn set_bits(&mut self, bits: u8)
        ensures
            final(self).bits == bits,
    {
        self.bits = bits;
    }
}

/// Turns a linear sector address into cylinder, head and sector, with
/// two heads, eighteen sectors per track, and one-based sector numbers.
pub fn lba_to_chs(lba: u32) -> (r: (u32, u32, u32))
    ensures
        r.0 == lba / 36,
        r.1 == (lba % 36) / 18,
        r.2 == (lba % 36) % 18 + 1,
{
    (
        lba / (2 * FLOPPY_SECTORS_PER_TRACK),
        (lba % (2 * FLOPPY_SECTORS_PER_TRACK)) / FLOPPY_SECTORS_PER_TRACK,
        (lba % (2 * FLOPPY_SECTORS_PER_TRACK)) % FLOPPY_SECTORS_PER_TRACK + 1,
    )
}

} // verus!
