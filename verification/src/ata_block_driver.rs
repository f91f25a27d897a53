//! The drive identity data of the ATA driver, and its pure queries.  The
//! port-level read and write paths live outside the library; the engine
//! sees the device through `BlockDevice`.

use vstd::prelude::*;

verus! {

/// What the identify command reported of the drive.
pub struct DriveProperties {
    /// Sector count addressable through 28-bit addressing.
    pub lba28_sectors: u32,
    /// Sector count addressable through 48-bit addressing, where supported.
    pub lba48_sectors: Option<u64>,
}

impl DriveProperties {
    /// Whether 48-bit addressing is supported.
    pub fn supports_lba48(&self) -> (r: bool)
        ensures
            r == (self.lba48_sectors is Some),
    {
        self.lba48_sectors.is_some()
    }

    /// The drive's sector count: the 48-bit figure where present, else the
    /// 28-bit one.
    pub fn sector_count(&self) -> (r: u64)
        ensures
            r == match self.lba48_sectors {
                Some(n) => n,
                None => self.lba28_sectors as u64,
            },
    {
        match self.lba48_sectors {
            Some(n) => n,
            None => self.lba28_sectors as u64,
        }
    }
}

/// The drive handle: its identity data; the transfer routines live with
/// the port code outside the library.
pub struct AtaPio {
    pub properties: DriveProperties,
}

impl AtaPio {
    /// Reports readiness; the identity was taken at construction.
    pub fn init(&mut self) -> (r: bool)
        ensures
            r == true,
            *final(self) == *old(self),
    {
        true
    }

    /// Bytes per sector.
    pub fn sector_size(&self) -> (r: u64)
        ensures
            r == 512,
    {
        0x200
    }

    /// Capacity in sectors.
    pub fn capacity_sectors(&mut self) -> (r: u64)
        ensures
            *final(self) == *old(self),
            r == match old(self).properties.lba48_sectors {
                Some(n) => n,
                None => old(self).properties.lba28_sectors as u64,
            },
    {
        self.properties.sector_count()
    }
}

} // verus!
