//! What can go wrong reading an image or carrying out a command.

use vstd::prelude::*;

verus! {

/// The errors of this library. Where a file is concerned, its decoded name
/// is carried along.
#[derive(Debug, Clone)]
pub enum MfsError {
    /// The image holds an HFS volume, not an MFS one.
    HfsVolume,
    /// No MFS signature in a raw image nor in a DiskCopy 4.2 container.
    NoSignature,
    /// The allocation block size is zero or not a multiple of 512.
    BadAllocBlockSize(u32),
    /// The file directory reaches past the end of the image.
    DirectoryPastEnd,
    /// An allocation block number outside the volume was looked up.
    BlockOutOfRange(u16),
    /// The allocation map entry lies past the end of the image.
    MapTruncated,
    /// A fork has a length but no first allocation block.
    NoStartBlock { name: String, len: usize },
    /// A fork's allocation chain is longer than the volume has blocks.
    ChainLoops { name: String },
    /// A fork's allocation chain names a block outside the volume.
    ChainLeavesVolume { name: String },
    /// A fork's allocation block lies past the end of the image.
    BlockPastEnd { name: String, blk: u16 },
    /// A fork's allocation chain ends before the fork's length is read.
    ChainEnded { name: String, got: usize, expected: usize },
    /// A fork's allocation chain runs into a free block.
    ChainFree { name: String },
    /// The mount state text has no image path.
    StateCorrupt,
    /// `cd` to a folder that no file name lies in.
    NoSuchFolder { path: String },
    /// A copy source pattern that matches no file.
    NoSuchFile { pattern: String },
    /// A command-line option that the command does not know.
    UnknownOption { option: String },
    /// Wrong arguments to `mfsls`.
    LsUsage,
    /// Wrong arguments to `mfscopy`.
    CopyUsage,
    /// Copying into an image was asked for.
    DestinationIsMfs { dest: String },
    /// Several files to copy, but the destination is no directory.
    DestinationNotDir { dest: String, count: usize },
}

} // verus!
