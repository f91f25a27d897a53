//! A verified reimplementation of the storage and control subsystems of a
//! small teaching kernel.  The heart of the crate is a tar-derived virtual
//! filesystem: a record codec for 512-byte on-disk headers, an arena-based
//! directory tree, a linear mount scan, write-back with a frontier allocator,
//! and tombstone-based deletion with compaction.

pub mod ata_block_driver;
pub mod floppy_block_driver;
pub mod octal;
pub mod brainf;
pub mod commands;
pub mod keyboard_routing;
pub mod rng;
pub mod speaker;
pub mod timer_routing;
pub mod vi;
pub mod vga_buffer;
pub mod codec;
pub mod device;
pub mod node;
pub mod paths;
pub mod sessions;
pub mod text;
pub mod ustar;

use vstd::prelude::*;

verus! {

/// Typed outcome of a filesystem operation.
#[derive(Clone, Copy, Debug, PartialEq, Eq, Structural)]
pub enum FsError {
    /// Path resolution failed.
    NotFound,
    /// A live sibling already occupies the requested name.
    NameCollision,
    /// The requested name is empty, reserved, or does not fit the
    /// fixed-width name field of the on-disk record.
    InvalidName,
    /// A read or write fell beyond the capacity of the backing store,
    /// or the allocation cursor ran off the end of its range.
    DeviceBoundary,
}

/// The exit codes handed to the emulator on shutdown.
#[derive(Clone, Copy, Debug, PartialEq, Eq, Structural)]
pub enum QemuExitCode {
    Success,
    Failed,
}

impl QemuExitCode {
    /// The value written to the emulator's exit port.
    pub fn code(&self) -> (r: u32)
        ensures
            r == match *self {
                QemuExitCode::Success => 0x10u32,
                QemuExitCode::Failed => 0x11u32,
            },
    {
        match *self {
            QemuExitCode::Success => 0x10,
            QemuExitCode::Failed => 0x11,
        }
    }
}

} // verus!
