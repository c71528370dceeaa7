//! Validation of a Multiboot1 memory map supplied by a bootloader, and the
//! expansion of its usable regions into aligned physical page frames.
//!
//! The pipeline is: bytes -> [`RawEntry`] -> [`MemRegion`] -> [`PhysFrame`].

pub mod entry;
pub mod frames;
pub mod region;
pub mod walker;

pub use entry::{push_entry, raw, read_one, MmapError, RawEntry};
pub use frames::{PhysFrame, UsableFrames};
pub use region::{sanitize, MemRegion};
pub use walker::Mb1MmapIter;
