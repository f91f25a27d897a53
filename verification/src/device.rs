//! The block device: a linearly addressed store of 512-byte sectors.
//!
//! The transfer boundary mirrors the programmed-I/O drive the engine was
//! written against: reads hand back bytes, writes take 16-bit words
//! addressed by a 32-bit sector index, and the engine does the byte-to-word
//! packing itself.  A word carries two bytes, low byte first.  Reads and
//! writes beyond the capacity are refused.

use vstd::prelude::*;
use crate::FsError;
use crate::codec::zeros;

verus! {

/// An in-memory block device of fixed capacity.
pub struct BlockDevice {
    /// The raw bytes of the whole store; the length is the capacity times
    /// the sector size.
    pub data: Vec<u8>,
}

/// The bytes a sequence of device words stands for: each word contributes
/// its low byte, then its high byte; missing words read as zero, so that a
/// short transfer zero-fills its sector.
pub open spec fn words_to_bytes(words: Seq<u16>, n: nat) -> Seq<u8> {
    Seq::new(
        n,
        |i: int|
            if i / 2 < words.len() {
                if i % 2 == 0 {
                    (words[i / 2] % 256) as u8
                } else {
                    (words[i / 2] / 256) as u8
                }
            } else {
                0u8
            },
    )
}

/// The device bytes after `bytes` is laid over `data` starting at `at`.
pub open spec fn overwrite(data: Seq<u8>, at: int, bytes: Seq<u8>) -> Seq<u8> {
    Seq::new(
        data.len(),
        |i: int|
            if at <= i < at + bytes.len() {
                bytes[i - at]
            } else {
                data[i]
            },
    )
}

impl BlockDevice {
    pub open spec fn capacity(self) -> nat {
        (self.data@.len() / 512) as nat
    }

    /// A zero-filled device of the given sector count.
    pub fn new(sector_count: usize) -> (d: BlockDevice)
        requires
            sector_count <= 0x20_0000,
        ensures
            d.data@ == zeros((sector_count * 512) as nat),
            d.capacity() == sector_count,
    {
        let mut data: Vec<u8> = Vec::new();
        crate::codec::push_zeros(&mut data, sector_count * 512);
        proof {
            assert(data@ =~= zeros((sector_count * 512) as nat));
            assert(data@.len() / 512 == sector_count) by (nonlinear_arith)
                requires
                    data@.len() == sector_count * 512,
            ;
        }
        BlockDevice { data }
    }

    /// A device over an existing byte image, e.g. a volume written by
    /// another tool; bytes past the last whole sector are unreachable.
    pub fn from_bytes(data: Vec<u8>) -> (d: BlockDevice)
        ensures
            d.data@ == data@,
    {
        BlockDevice { data }
    }

    /// Reads `sectors` whole sectors starting at `sector_index`.
    pub fn read(&self, sector_index: u32, sectors: u8) -> (r: Result<Vec<u8>, FsError>)
        ensures
            match r {
                Ok(bytes) => {
                    &&& sector_index + sectors <= self.capacity()
                    &&& bytes@ == self.data@.subrange(
                        sector_index as int * 512,
                        (sector_index + sectors) * 512,
                    )
                },
                Err(e) => {
                    &&& e == FsError::DeviceBoundary
                    &&& sector_index + sectors > self.capacity()
                },
            },
    {
        let dl = self.data.len();
        let cap = dl / 512;
        if sector_index as u64 + sectors as u64 > cap as u64 {
            return Err(FsError::DeviceBoundary);
        }
        proof {
            lemma_sector_range_fits(dl as int, sector_index as int, sectors as int);
        }
        let from = sector_index as usize * 512;
        let to = from + sectors as usize * 512;
        let r = crate::paths::copy_range(&self.data, from, to);
        Ok(r)
    }

    /// Writes `sectors` whole sectors of words starting at `sector_index`;
    /// a transfer shorter than the sector count zero-fills the rest, which
    /// is how end-of-volume marks are laid down.
    pub fn write(&mut self, sector_index: u32, sectors: u8, words: Vec<u16>) -> (r: Result<
        (),
        FsError,
    >)
        ensures
            match r {
                Ok(()) => {
                    &&& sector_index + sectors <= old(self).capacity()
                    &&& final(self).data@ == overwrite(
                        old(self).data@,
                        sector_index as int * 512,
                        words_to_bytes(words@, (sectors * 512) as nat),
                    )
                },
                Err(e) => {
                    &&& e == FsError::DeviceBoundary
                    &&& sector_index + sectors > old(self).capacity()
                    &&& *final(self) == *old(self)
                },
            },
    {
        let dl = self.data.len();
        let cap = dl / 512;
        if sector_index as u64 + sectors as u64 > cap as u64 {
            return Err(FsError::DeviceBoundary);
        }
        proof {
            lemma_sector_range_fits(dl as int, sector_index as int, sectors as int);
        }
        let base = sector_index as usize * 512;
        let n = sectors as usize * 512;
        let ghost bytes = words_to_bytes(words@, n as nat);
        let mut i: usize = 0;
        while i < n
            invariant
                0 <= i <= n,
                base + n <= dl,
                dl == self.data@.len(),
                self.data@.len() == old(self).data@.len(),
                bytes == words_to_bytes(words@, n as nat),
                forall|k: int|
                    0 <= k < self.data@.len() ==> self.data@[k] == if base <= k < base + i {
                        bytes[k - base]
                    } else {
                        old(self).data@[k]
                    },
            decreases n - i,
        {
            let w: u16 = if i / 2 < words.len() {
                words[i / 2]
            } else {
                0
            };
            proof {
                assert(w & 0xff == w % 256 && w >> 8 == w / 256) by (bit_vector);
            }
            let b: u8 = if i % 2 == 0 {
                (w & 0xff) as u8
            } else {
                (w >> 8) as u8
            };
            proof {
                assert(b == bytes[i as int]);
            }
            self.data.set(base + i, b);
            i = i + 1;
        }
        proof {
            assert(self.data@ =~= overwrite(
                old(self).data@,
                base as int,
                words_to_bytes(words@, n as nat),
            ));
        }
        Ok(())
    }

    /// Packs bytes into device words and writes them sector by sector at
    /// `sector`, through the word-oriented boundary.  Nothing is written
    /// when the range would leave the device, or would run past the span a
    /// 32-bit sector index can reach.
    pub fn write_bytes(&mut self, sector: u64, bytes: &Vec<u8>) -> (r: Result<(), FsError>)
        requires
            bytes@.len() % 512 == 0,
        ensures
            match r {
                Ok(()) => {
                    &&& sector * 512 + bytes@.len() <= old(self).data@.len()
                    &&& final(self).data@ == overwrite(old(self).data@, sector as int * 512, bytes@)
                },
                Err(e) => {
                    &&& e == FsError::DeviceBoundary
                    &&& (sector * 512 + bytes@.len() > old(self).data@.len() || sector + bytes@.len()
                        / 512 > 0x1_0000_0000)
                    &&& *final(self) == *old(self)
                },
            },
    {
        let blen = bytes.len();
        let n_sectors = blen / 512;
        let dl = self.data.len();
        let fits: bool = match sector.checked_mul(512) {
            Some(start) => match start.checked_add(blen as u64) {
                Some(end) => end <= dl as u64,
                None => false,
            },
            None => false,
        };
        if !fits {
            return Err(FsError::DeviceBoundary);
        }
        let in_span: bool = match sector.checked_add(n_sectors as u64) {
            Some(e) => e <= 0x1_0000_0000,
            None => false,
        };
        if !in_span {
            return Err(FsError::DeviceBoundary);
        }
        proof {
            assert(n_sectors * 512 == blen && blen / 512 == n_sectors) by (nonlinear_arith)
                requires
                    n_sectors == blen / 512,
                    blen % 512 == 0,
            ;
        }
        let mut s: usize = 0;
        while s < n_sectors
            invariant
                0 <= s <= n_sectors,
                n_sectors * 512 == blen,
                blen == bytes@.len(),
                sector * 512 + blen <= dl,
                sector + n_sectors <= 0x1_0000_0000,
                dl == self.data@.len(),
                self.data@.len() == old(self).data@.len(),
                forall|k: int|
                    0 <= k < self.data@.len() ==> self.data@[k] == if sector * 512 <= k < sector
                        * 512 + s * 512 {
                        bytes@[k - sector * 512]
                    } else {
                        old(self).data@[k]
                    },
            decreases n_sectors - s,
        {
            let mut words: Vec<u16> = Vec::new();
            let mut j: usize = 0;
            proof {
                assert((s + 1) * 512 <= blen) by (nonlinear_arith)
                    requires
                        s < n_sectors,
                        n_sectors * 512 == blen,
                ;
            }
            while j < 256
                invariant
                    0 <= j <= 256,
                    (s + 1) * 512 <= blen,
                    blen == bytes@.len(),
                    words@.len() == j,
                    forall|t: int|
                        0 <= t < j ==> words@[t] == (bytes@[s * 512 + 2 * t + 1] as u16) << 8
                            | bytes@[s * 512 + 2 * t] as u16,
                decreases 256 - j,
            {
                let w: u16 = ((bytes[s * 512 + j * 2 + 1] as u16) << 8) | (bytes[s * 512 + j * 2]
                    as u16);
                words.push(w);
                j = j + 1;
            }
            proof {
                lemma_sector_of_bytes(bytes@, s as int, words@);
                assert((sector + s) + 1 <= dl / 512) by (nonlinear_arith)
                    requires
                        sector * 512 + blen <= dl,
                        (s + 1) * 512 <= blen,
                        n_sectors * 512 == blen,
                ;
            }
            let sec = sector + s as u64;
            let res = self.write(sec as u32, 1, words);
            match res {
                Ok(()) => {},
                Err(_) => {
                    proof {
                        assert(false);
                    }
                },
            }
            s = s + 1;
        }
        proof {
            assert(self.data@ =~= overwrite(old(self).data@, sector as int * 512, bytes@));
        }
        Ok(())
    }
}

/// A sector range that the capacity admits lies within the byte store.
proof fn lemma_sector_range_fits(dl: int, si: int, sc: int)
    requires
        dl >= 0,
        si >= 0,
        sc >= 0,
        si + sc <= dl / 512,
    ensures
        si * 512 + sc * 512 <= dl,
    decreases sc,
{
    assert((si + sc) * 512 <= (dl / 512) * 512 && (dl / 512) * 512 <= dl && (si + sc) * 512 == si
        * 512 + sc * 512) by (nonlinear_arith)
        requires
            dl >= 0,
            si >= 0,
            sc >= 0,
            si + sc <= dl / 512,
    ;
}

proof fn lemma_sector_of_bytes(bytes: Seq<u8>, s: int, words: Seq<u16>)
    requires
        0 <= s,
        (s + 1) * 512 <= bytes.len(),
        words.len() == 256,
        forall|t: int|
            0 <= t < 256 ==> words[t] == (bytes[s * 512 + 2 * t + 1] as u16) << 8 | bytes[s * 512
                + 2 * t] as u16,
    ensures
        words_to_bytes(words, 512) == bytes.subrange(s * 512, (s + 1) * 512),
{
    let w = words_to_bytes(words, 512);
    let b = bytes.subrange(s * 512, (s + 1) * 512);
    assert forall|i: int| 0 <= i < 512 implies w[i] == b[i] by {
        let t = i / 2;
        assert(0 <= t < 256);
        let lo = bytes[s * 512 + 2 * t];
        let hi = bytes[s * 512 + 2 * t + 1];
        assert(words[t] == (hi as u16) << 8 | lo as u16);
        if i % 2 == 0 {
            assert(((hi as u16) << 8 | lo as u16) % 256 == lo as u16) by (bit_vector);
            assert(2 * t == i);
        } else {
            assert(((hi as u16) << 8 | lo as u16) / 256 == hi as u16) by (bit_vector);
            assert(2 * t + 1 == i);
        }
    }
    assert(w =~= b);
}

} // verus!
