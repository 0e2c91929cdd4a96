//! MFS disk image reader.
//!
//! Layout (512-byte sectors, all values big-endian):
//!
//! ```text
//! sectors 0..2:   boot blocks
//! sector  2..:    MDB: 64-byte volume info + 12-bit allocation map
//!                 (map may spill into following sectors)
//! drDirSt..:      flat file directory (drBlLen sectors)
//! drAlBlSt..:     allocation blocks (drAlBlkSiz bytes each), numbered
//!                 from 2 (values 0 and 1 in the map mean FREE and LAST)
//! ```
//!
//! Reference: Inside Macintosh, Volume II, "The File Manager".

use vstd::prelude::*;
use crate::error::MfsError;
use crate::util::{decode_macroman, macroman_text};

verus! {

pub const SIGNATURE: u16 = 0xD2D7;

const SECTOR: usize = 512;

/// Offset of the disk data inside a DiskCopy 4.2 container.
const DC42_DATA_OFFSET: usize = 84;

/// Big-endian 16-bit value at `off`.
pub open spec fn spec_be16(d: Seq<u8>, off: int) -> int {
    d[off] * 256 + d[off + 1]
}

/// Big-endian 32-bit value at `off`.
pub open spec fn spec_be32(d: Seq<u8>, off: int) -> int {
    d[off] * 16777216 + d[off + 1] * 65536 + d[off + 2] * 256 + d[off + 3]
}

fn be16(d: &[u8], off: usize) -> (v: u16)
    requires
        off + 2 <= d.len(),
    ensures
        v == spec_be16(d@, off as int),
{
    (d[off] as u16) * 256 + (d[off + 1] as u16)
}

fn be32(d: &[u8], off: usize) -> (v: u32)
    requires
        off + 4 <= d.len(),
    ensures
        v == spec_be32(d@, off as int),
{
    (d[off] as u32) * 16777216 + (d[off + 1] as u32) * 65536 + (d[off + 2] as u32) * 256 + (d[off
        + 3] as u32)
}

/// Volume information from the master directory block.
#[derive(Debug, Clone)]
pub struct VolumeInfo {
    pub name: String,
    pub create_date: u32,
    pub backup_date: u32,
    pub attributes: u16,
    pub num_files: u16,
    pub dir_start: u16,
    pub dir_len: u16,
    pub num_alloc_blks: u16,
    pub alloc_blk_size: u32,
    pub clump_size: u32,
    pub alloc_blk_start: u16,
    pub next_file_num: u32,
    pub free_blks: u16,
}

/// The two forks of a Macintosh file.
#[derive(Debug, Clone, Copy, PartialEq, Eq, Structural)]
pub enum Fork {
    Data,
    Rsrc,
}

/// One file directory entry.
#[derive(Debug, Clone)]
pub struct FileEntry {
    pub locked: bool,
    pub type_code: [u8; 4],
    pub creator: [u8; 4],
    pub finder_flags: u16,
    pub location_v: i16,
    pub location_h: i16,
    pub folder: u16,
    pub file_num: u32,
    pub data_start: u16,
    pub data_len: u32,
    pub data_phys: u32,
    pub rsrc_start: u16,
    pub rsrc_len: u32,
    pub rsrc_phys: u32,
    pub create_date: u32,
    pub mod_date: u32,
    /// Original MacRoman bytes of the name (needed for MacBinary/BinHex).
    pub raw_name: Vec<u8>,
    /// Name decoded to Unicode.
    pub name: String,
}

/// An MFS volume read from the bytes of an image.
pub struct Volume {
    /// The bytes of the image.
    pub data: Vec<u8>,
    /// Byte offset of sector 0 inside the file (0 for raw images,
    /// 84 for DiskCopy 4.2 containers).
    pub base: usize,
    pub info: VolumeInfo,
    pub files: Vec<FileEntry>,
}

// ------------------------------------------------------------ locating

/// An MFS signature sits in the third sector counted from `off`.
pub open spec fn sig_at(d: Seq<u8>, off: int) -> bool {
    d.len() >= off + 3 * 512 && spec_be16(d, off + 2 * 512) == 0xD2D7
}

/// Where sector 0 starts: 0 for a raw image, 84 inside a DiskCopy 4.2
/// container (magic 0x0100 at offset 0x52); else why there is no volume.
pub open spec fn spec_find_base(d: Seq<u8>) -> Result<usize, MfsError> {
    if sig_at(d, 0) {
        Ok(0)
    } else if d.len() > 84 + 3 * 512 && spec_be16(d, 0x52) == 0x0100 && sig_at(d, 84) {
        Ok(84)
    } else if d.len() >= 3 * 512 && spec_be16(d, 1024) == 0x4244 {
        Err(MfsError::HfsVolume)
    } else {
        Err(MfsError::NoSignature)
    }
}

// ----------------------------------------------------------------- MDB

/// Length of the volume name: its length byte, at most 27.
pub open spec fn vol_name_len(d: Seq<u8>, m: int) -> int {
    if d[m + 0x24] < 27 {
        d[m + 0x24] as int
    } else {
        27
    }
}

/// `info` holds the fields of the master directory block of the volume
/// whose sector 0 is at `base`.
pub open spec fn info_matches(info: VolumeInfo, d: Seq<u8>, base: int) -> bool {
    let m = base + 2 * 512;
    &&& info.name@ == macroman_text(d.subrange(m + 0x25, m + 0x25 + vol_name_len(d, m)))
    &&& info.create_date == spec_be32(d, m + 0x02)
    &&& info.backup_date == spec_be32(d, m + 0x06)
    &&& info.attributes == spec_be16(d, m + 0x0A)
    &&& info.num_files == spec_be16(d, m + 0x0C)
    &&& info.dir_start == spec_be16(d, m + 0x0E)
    &&& info.dir_len == spec_be16(d, m + 0x10)
    &&& info.num_alloc_blks == spec_be16(d, m + 0x12)
    &&& info.alloc_blk_size == spec_be32(d, m + 0x14)
    &&& info.clump_size == spec_be32(d, m + 0x18)
    &&& info.alloc_blk_start == spec_be16(d, m + 0x1C)
    &&& info.next_file_num == spec_be32(d, m + 0x1E)
    &&& info.free_blks == spec_be16(d, m + 0x22)
}

/// Why the master directory block at `base` is unusable, if it is.
pub open spec fn mdb_error(d: Seq<u8>, base: int) -> Option<MfsError> {
    let m = base + 2 * 512;
    let abs = spec_be32(d, m + 0x14);
    if abs == 0 || abs % 512 != 0 {
        Some(MfsError::BadAllocBlockSize(abs as u32))
    } else if base + (spec_be16(d, m + 0x0E) + spec_be16(d, m + 0x10)) * 512 > d.len() {
        Some(MfsError::DirectoryPastEnd)
    } else {
        None
    }
}

// ----------------------------------------------------------- directory

/// Size of the directory entry at `off`: 0x33 bytes and the name, padded
/// to even length.
pub open spec fn entry_size(d: Seq<u8>, off: int) -> int {
    let n = 0x33 + d[off + 0x32];
    n + n % 2
}

/// Offsets of the entries from `off` up to the end `end` of a directory
/// sector: entries lie back to back, a clear in-use bit ends them, and
/// so does an entry that would cross the end of the sector.
pub open spec fn sector_entries(d: Seq<u8>, off: int, end: int) -> Seq<int>
    decreases end - off,
{
    if off + 0x33 > end {
        Seq::empty()
    } else if d[off] & 0x80 == 0 {
        Seq::empty()
    } else if off + entry_size(d, off) > end {
        Seq::empty()
    } else {
        seq![off] + sector_entries(d, off + entry_size(d, off), end)
    }
}

/// Offsets of the entries of the first `count` directory sectors, which
/// start at sector `start` of the volume at `base`.
pub open spec fn dir_entries(d: Seq<u8>, base: int, start: int, count: int) -> Seq<int>
    decreases count,
{
    if count <= 0 {
        Seq::empty()
    } else {
        let sec = base + (start + count - 1) * 512;
        dir_entries(d, base, start, count - 1) + sector_entries(d, sec, sec + 512)
    }
}

/// `f` holds the fields of the directory entry at offset `o`.
pub open spec fn entry_matches(f: FileEntry, d: Seq<u8>, o: int) -> bool {
    &&& f.locked == (d[o] & 0x01 != 0)
    &&& f.type_code@ == d.subrange(o + 0x02, o + 0x06)
    &&& f.creator@ == d.subrange(o + 0x06, o + 0x0A)
    &&& f.finder_flags == spec_be16(d, o + 0x0A)
    &&& f.location_v == (spec_be16(d, o + 0x0C) as u16) as i16
    &&& f.location_h == (spec_be16(d, o + 0x0E) as u16) as i16
    &&& f.folder == spec_be16(d, o + 0x10)
    &&& f.file_num == spec_be32(d, o + 0x12)
    &&& f.data_start == spec_be16(d, o + 0x16)
    &&& f.data_len == spec_be32(d, o + 0x18)
    &&& f.data_phys == spec_be32(d, o + 0x1C)
    &&& f.rsrc_start == spec_be16(d, o + 0x20)
    &&& f.rsrc_len == spec_be32(d, o + 0x22)
    &&& f.rsrc_phys == spec_be32(d, o + 0x26)
    &&& f.create_date == spec_be32(d, o + 0x2A)
    &&& f.mod_date == spec_be32(d, o + 0x2E)
    &&& f.raw_name@ == d.subrange(o + 0x33, o + 0x33 + d[o + 0x32])
    &&& f.name@ == macroman_text(f.raw_name@)
}

/// `files` are the directory entries of the volume at `base`, in order.
pub open spec fn directory_matches(
    files: Seq<FileEntry>,
    d: Seq<u8>,
    base: int,
    info: VolumeInfo,
) -> bool {
    let offs = dir_entries(d, base, info.dir_start as int, info.dir_len as int);
    &&& files.len() == offs.len()
    &&& forall|i: int| 0 <= i < files.len() ==> entry_matches(#[trigger] files[i], d, offs[i])
}

// ---------------------------------------------------------------- forks

/// Offset in the image of the allocation map entry number `idx` (that of
/// allocation block `idx + 2`): two 12-bit entries per three bytes.
pub open spec fn map_offset(base: int, idx: int) -> int {
    base + 2 * 512 + 0x40 + (idx / 2) * 3
}

/// The 12-bit allocation map entry number `idx`, big-endian.
pub open spec fn map_value(d: Seq<u8>, base: int, idx: int) -> int {
    let off = map_offset(base, idx);
    if idx % 2 == 0 {
        d[off] * 16 + d[off + 1] / 16
    } else {
        (d[off + 1] % 16) * 256 + d[off + 2]
    }
}

/// The allocation map entry of block `blk`: the number of the block that
/// follows it in its file, or 0 (free) or 1 (last).
pub open spec fn spec_map_entry(d: Seq<u8>, base: int, info: VolumeInfo, blk: u16) -> Result<
    u16,
    MfsError,
> {
    if blk < 2 || blk - 2 >= info.num_alloc_blks {
        Err(MfsError::BlockOutOfRange(blk))
    } else if map_offset(base, blk - 2) + 3 > d.len() {
        Err(MfsError::MapTruncated)
    } else {
        Ok(map_value(d, base, blk - 2) as u16)
    }
}

/// First block and length of a fork.
pub open spec fn fork_extent(f: FileEntry, fork: Fork) -> (u16, int) {
    match fork {
        Fork::Data => (f.data_start, f.data_len as int),
        Fork::Rsrc => (f.rsrc_start, f.rsrc_len as int),
    }
}

/// `r` with `p` put in front of its bytes, if it has any.
pub open spec fn prefixed(p: Seq<u8>, r: Result<Seq<u8>, MfsError>) -> Result<Seq<u8>, MfsError> {
    match r {
        Ok(s) => Ok(p + s),
        Err(e) => Err(e),
    }
}

/// The rest of a fork of length `len`, of which `got` bytes are read,
/// from allocation block `blk` on, after `hops` blocks were visited:
/// each block gives up to one allocation block of bytes, the map gives
/// the next block. `name` is the file's, for the errors.
pub open spec fn chain_read(
    d: Seq<u8>,
    base: int,
    info: VolumeInfo,
    name: String,
    blk: u16,
    len: int,
    got: int,
    hops: int,
) -> Result<Seq<u8>, MfsError>
    decreases info.num_alloc_blks + 3 - hops,
{
    let hops1 = hops + 1;
    if hops1 > info.num_alloc_blks + 2 {
        Err(MfsError::ChainLoops { name })
    } else if blk < 2 || blk - 2 >= info.num_alloc_blks {
        Err(MfsError::ChainLeavesVolume { name })
    } else {
        let abs = info.alloc_blk_size as int;
        let off = base + info.alloc_blk_start * 512 + (blk - 2) * abs;
        if off + abs > d.len() {
            Err(MfsError::BlockPastEnd { name, blk })
        } else {
            let take = if abs < len - got {
                abs
            } else {
                len - got
            };
            let chunk = d.subrange(off, off + take);
            if got + take >= len {
                Ok(chunk)
            } else {
                match spec_map_entry(d, base, info, blk) {
                    Err(e) => Err(e),
                    Ok(next) => {
                        if next == 1 {
                            Err(
                                MfsError::ChainEnded {
                                    name,
                                    got: (got + take) as usize,
                                    expected: len as usize,
                                },
                            )
                        } else if next == 0 {
                            Err(MfsError::ChainFree { name })
                        } else {
                            prefixed(
                                chunk,
                                chain_read(d, base, info, name, next, len, got + take, hops1),
                            )
                        }
                    },
                }
            }
        }
    }
}

/// The content of a fork: empty for length 0, else read along its
/// allocation chain.
pub open spec fn spec_read_fork(
    d: Seq<u8>,
    base: int,
    info: VolumeInfo,
    f: FileEntry,
    fork: Fork,
) -> Result<Seq<u8>, MfsError> {
    let (start, len) = fork_extent(f, fork);
    if len == 0 {
        Ok(Seq::empty())
    } else if start < 2 {
        Err(MfsError::NoStartBlock { name: f.name, len: len as usize })
    } else {
        chain_read(d, base, info, f.name, start, len, 0, 0)
    }
}

/// Why the bytes `d` hold no readable volume, if they do not.
pub open spec fn open_error(d: Seq<u8>) -> Option<MfsError> {
    match spec_find_base(d) {
        Err(e) => Some(e),
        Ok(b) => mdb_error(d, b as int),
    }
}

/// `d[from..to]` as a new vector.
fn copy_range(d: &[u8], from: usize, to: usize) -> (v: Vec<u8>)
    requires
        from <= to <= d.len(),
    ensures
        v@ == d@.subrange(from as int, to as int),
{
    let mut v = Vec::new();
    let mut i = from;
    while i < to
        invariant
            from <= i <= to <= d.len(),
            v@ =~= d@.subrange(from as int, i as int),
        decreases to - i,
    {
        v.push(d[i]);
        i += 1;
    }
    v
}

impl Volume {
    /// Reads a volume from the bytes of a raw image or a DiskCopy 4.2
    /// container.
    pub fn from_bytes(data: Vec<u8>) -> (r: Result<Self, MfsError>)
        ensures
            r is Ok <==> open_error(data@) is None,
            r matches Err(e) ==> open_error(data@) == Some(e),
            r matches Ok(vol) ==> {
                &&& vol.data@ == data@
                &&& spec_find_base(data@) == Ok::<usize, MfsError>(vol.base)
                &&& vol.base + 3 * 512 <= data.len()
                &&& vol.base + (vol.info.dir_start + vol.info.dir_len) * 512 <= data.len()
                &&& info_matches(vol.info, data@, vol.base as int)
                &&& directory_matches(vol.files@, data@, vol.base as int, vol.info)
            },
    {
        let base = match Self::find_base(data.as_slice()) {
            Ok(b) => b,
            Err(e) => return Err(e),
        };
        let info = match Self::parse_mdb(data.as_slice(), base) {
            Ok(i) => i,
            Err(e) => return Err(e),
        };
        let files = Self::parse_directory(data.as_slice(), base, &info);
        Ok(Self { data, base, info, files })
    }

    fn find_base(data: &[u8]) -> (r: Result<usize, MfsError>)
        ensures
            r == spec_find_base(data@),
            r matches Ok(b) ==> b + 3 * SECTOR <= data.len() && b <= DC42_DATA_OFFSET,
    {
        if data.len() >= 3 * SECTOR && be16(data, 2 * SECTOR) == SIGNATURE {
            return Ok(0);
        }
        // DiskCopy 4.2: 84-byte header, magic 0x0100 at offset 0x52.
        if data.len() > DC42_DATA_OFFSET + 3 * SECTOR && be16(data, 0x52) == 0x0100 && be16(
            data,
            DC42_DATA_OFFSET + 2 * SECTOR,
        ) == SIGNATURE {
            return Ok(DC42_DATA_OFFSET);
        }
        if data.len() >= 3 * SECTOR && be16(data, 2 * SECTOR) == 0x4244 {
            return Err(MfsError::HfsVolume);
        }
        Err(MfsError::NoSignature)
    }

    fn parse_mdb(data: &[u8], base: usize) -> (r: Result<VolumeInfo, MfsError>)
        requires
            base + 3 * SECTOR <= data.len(),
            base <= DC42_DATA_OFFSET,
        ensures
            r is Ok <==> mdb_error(data@, base as int) is None,
            r matches Err(e) ==> mdb_error(data@, base as int) == Some(e),
            r matches Ok(info) ==> {
                &&& info_matches(info, data@, base as int)
                &&& base + (info.dir_start + info.dir_len) * 512 <= data.len()
            },
    {
        let m = base + 2 * SECTOR;
        let name_len: usize = if data[m + 0x24] < 27 {
            data[m + 0x24] as usize
        } else {
            27
        };
        let raw = copy_range(data, m + 0x25, m + 0x25 + name_len);
        let info = VolumeInfo {
            name: decode_macroman(raw.as_slice()),
            create_date: be32(data, m + 0x02),
            backup_date: be32(data, m + 0x06),
            attributes: be16(data, m + 0x0A),
            num_files: be16(data, m + 0x0C),
            dir_start: be16(data, m + 0x0E),
            dir_len: be16(data, m + 0x10),
            num_alloc_blks: be16(data, m + 0x12),
            alloc_blk_size: be32(data, m + 0x14),
            clump_size: be32(data, m + 0x18),
            alloc_blk_start: be16(data, m + 0x1C),
            next_file_num: be32(data, m + 0x1E),
            free_blks: be16(data, m + 0x22),
        };
        if info.alloc_blk_size == 0 || info.alloc_blk_size % (SECTOR as u32) != 0 {
            return Err(MfsError::BadAllocBlockSize(info.alloc_blk_size));
        }
        let dir_end = (info.dir_start as usize + info.dir_len as usize) * SECTOR;
        if base + dir_end > data.len() {
            return Err(MfsError::DirectoryPastEnd);
        }
        Ok(info)
    }

    fn parse_entry(data: &[u8], off: usize) -> (f: FileEntry)
        requires
            off + 0x33 + data[off + 0x32] <= data.len(),
        ensures
            entry_matches(f, data@, off as int),
    {
        let name_len = data[off + 0x32] as usize;
        let raw_name = copy_range(data, off + 0x33, off + 0x33 + name_len);
        let type_code = [data[off + 2], data[off + 3], data[off + 4], data[off + 5]];
        let creator = [data[off + 6], data[off + 7], data[off + 8], data[off + 9]];
        assert(type_code@ =~= data@.subrange(off + 0x02, off + 0x06));
        assert(creator@ =~= data@.subrange(off + 0x06, off + 0x0A));
        FileEntry {
            locked: data[off] & 0x01 != 0,
            type_code,
            creator,
            finder_flags: be16(data, off + 0x0A),
            location_v: be16(data, off + 0x0C) as i16,
            location_h: be16(data, off + 0x0E) as i16,
            folder: be16(data, off + 0x10),
            file_num: be32(data, off + 0x12),
            data_start: be16(data, off + 0x16),
            data_len: be32(data, off + 0x18),
            data_phys: be32(data, off + 0x1C),
            rsrc_start: be16(data, off + 0x20),
            rsrc_len: be32(data, off + 0x22),
            rsrc_phys: be32(data, off + 0x26),
            create_date: be32(data, off + 0x2A),
            mod_date: be32(data, off + 0x2E),
            name: decode_macroman(raw_name.as_slice()),
            raw_name,
        }
    }

    fn parse_directory(data: &[u8], base: usize, info: &VolumeInfo) -> (files: Vec<FileEntry>)
        requires
            base + (info.dir_start + info.dir_len) * 512 <= data.len(),
        ensures
            directory_matches(files@, data@, base as int, *info),
    {
        let mut files: Vec<FileEntry> = Vec::new();
        let ghost offs: Seq<int> = Seq::empty();
        let first = info.dir_start as usize;
        let count = info.dir_len as usize;
        let mut k: usize = 0;
        while k < count
            invariant
                first == info.dir_start,
                count == info.dir_len,
                base + (first + count) * 512 <= data.len(),
                k <= count,
                offs == dir_entries(data@, base as int, first as int, k as int),
                files.len() == offs.len(),
                forall|i: int|
                    0 <= i < files.len() ==> entry_matches(#[trigger] files@[i], data@, offs[i]),
            decreases count - k,
        {
            let sec_start = base + (first + k) * SECTOR;
            let sec_end = sec_start + SECTOR;
            let mut off = sec_start;
            let ghost before = offs;
            // Entries never cross sector boundaries; a clear in-use bit
            // marks the end of entries within a sector.
            while sec_end - off >= 0x33
                invariant
                    sec_end == sec_start + 512,
                    sec_end <= data.len(),
                    sec_start <= off <= sec_end,
                    offs + sector_entries(data@, off as int, sec_end as int) == before
                        + sector_entries(data@, sec_start as int, sec_end as int),
                    files.len() == offs.len(),
                    forall|i: int|
                        0 <= i < files.len() ==> entry_matches(#[trigger] files@[i], data@, offs[i]),
                ensures
                    sector_entries(data@, off as int, sec_end as int) == Seq::<int>::empty(),
                decreases sec_end - off,
            {
                if data[off] & 0x80 == 0 {
                    break;
                }
                let name_len = data[off + 0x32] as usize;
                let mut esize: usize = 0x33 + name_len;
                let pad: usize = esize & 1;
                assert(pad == esize % 2) by (bit_vector)
                    requires
                        pad == esize & 1,
                ;
                esize += pad;  // entries are padded to even length
                if esize > sec_end - off {
                    break;  // malformed entry; don't run off the sector
                }
                let f = Self::parse_entry(data, off);
                proof {
                    let rest = sector_entries(data@, off + esize, sec_end as int);
                    assert(sector_entries(data@, off as int, sec_end as int) == seq![off as int]
                        + rest);
                    assert(offs.push(off as int) + rest =~= offs + (seq![off as int] + rest));
                    offs = offs.push(off as int);
                }
                files.push(f);
                off += esize;
            }
            proof {
                assert(offs =~= offs + sector_entries(data@, off as int, sec_end as int));
                assert(dir_entries(data@, base as int, first as int, k + 1) == before
                    + sector_entries(data@, sec_start as int, sec_end as int));
            }
            k += 1;
        }
        files
    }
    /// Value of 12-bit allocation map entry for allocation block number
    /// `blk` (block numbers start at 2; map index is blk - 2).
    fn map_entry(&self, blk: u16) -> (r: Result<u16, MfsError>)
        ensures
            r == spec_map_entry(self.data@, self.base as int, self.info, blk),
    {
        if blk < 2 || blk - 2 >= self.info.num_alloc_blks {
            return Err(MfsError::BlockOutOfRange(blk));
        }
        let idx = (blk - 2) as u128;
        let off = self.base as u128 + 2 * (SECTOR as u128) + 0x40 + (idx / 2) * 3;
        if off + 3 > self.data.len() as u128 {
            return Err(MfsError::MapTruncated);
        }
        let o = off as usize;
        let d = &self.data;
        let b0 = d[o];
        let b1 = d[o + 1];
        let b2 = d[o + 2];
        if idx % 2 == 0 {
            let v = ((b0 as u16) << 4u16) | ((b1 as u16) >> 4u16);
            assert(v == b0 * 16 + b1 / 16) by (bit_vector)
                requires
                    v == ((b0 as u16) << 4u16) | ((b1 as u16) >> 4u16),
            ;
            Ok(v)
        } else {
            let v = (((b1 & 0x0F) as u16) << 8u16) | b2 as u16;
            assert(v == (b1 % 16) * 256 + b2) by (bit_vector)
                requires
                    v == (((b1 & 0x0F) as u16) << 8u16) | b2 as u16,
            ;
            Ok(v)
        }
    }

    /// Read a fork's logical content, following the allocation-block
    /// chain (files may be fragmented).
    pub fn read_fork(&self, f: &FileEntry, fork: Fork) -> (r: Result<Vec<u8>, MfsError>)
        ensures
            match r {
                Ok(v) => spec_read_fork(self.data@, self.base as int, self.info, *f, fork) == Ok::<
                    Seq<u8>,
                    MfsError,
                >(v@),
                Err(e) => spec_read_fork(self.data@, self.base as int, self.info, *f, fork) == Err::<
                    Seq<u8>,
                    MfsError,
                >(e),
            },
            r matches Ok(v) ==> v.len() == fork_extent(*f, fork).1,
    {
        let (start, len) = match fork {
            Fork::Data => (f.data_start, f.data_len as usize),
            Fork::Rsrc => (f.rsrc_start, f.rsrc_len as usize),
        };
        let mut out: Vec<u8> = Vec::with_capacity(len);
        if len == 0 {
            assert(out@ =~= Seq::<u8>::empty());
            return Ok(out);
        }
        if start < 2 {
            return Err(MfsError::NoStartBlock { name: f.name.clone(), len });
        }
        let ghost d = self.data@;
        let ghost whole = spec_read_fork(d, self.base as int, self.info, *f, fork);
        let abs = self.info.alloc_blk_size as u128;
        let area = self.base as u128 + self.info.alloc_blk_start as u128 * (SECTOR as u128);
        let num = self.info.num_alloc_blks;
        let mut blk = start;
        let mut hops: u32 = 0;
        loop
            invariant
                d == self.data@,
                whole == spec_read_fork(d, self.base as int, self.info, *f, fork),
                len == fork_extent(*f, fork).1,
                abs == self.info.alloc_blk_size,
                area == self.base + self.info.alloc_blk_start * 512,
                num == self.info.num_alloc_blks,
                out.len() < len,
                hops <= num + 2,
                whole == prefixed(
                    out@,
                    chain_read(d, self.base as int, self.info, f.name, blk, len as int, out.len() as int, hops as int),
                ),
            decreases num + 3 - hops,
        {
            hops += 1;
            if hops > num as u32 + 2 {
                return Err(MfsError::ChainLoops { name: f.name.clone() });
            }
            if blk < 2 || blk - 2 >= num {
                return Err(MfsError::ChainLeavesVolume { name: f.name.clone() });
            }
            assert((blk - 2) * abs <= 65536 * 0x1_0000_0000) by (nonlinear_arith)
                requires
                    blk < 65536,
                    abs < 0x1_0000_0000,
            ;
            let off = area + (blk as u128 - 2) * abs;
            if off + abs > self.data.len() as u128 {
                return Err(MfsError::BlockPastEnd { name: f.name.clone(), blk });
            }
            let remaining = len - out.len();
            let take: usize = if abs < remaining as u128 {
                abs as usize
            } else {
                remaining
            };
            let ghost before = out@;
            let o = off as usize;
            let mut i: usize = o;
            while i < o + take
                invariant
                    o + take <= self.data.len(),
                    o <= i <= o + take,
                    out@ =~= before + self.data@.subrange(o as int, i as int),
                decreases o + take - i,
            {
                out.push(self.data[i]);
                i += 1;
            }
            if out.len() >= len {
                return Ok(out);
            }
            let next = match self.map_entry(blk) {
                Ok(n) => n,
                Err(e) => return Err(e),
            };
            if next == 1 {
                return Err(
                    MfsError::ChainEnded { name: f.name.clone(), got: out.len(), expected: len },
                );
            }
            if next == 0 {
                return Err(MfsError::ChainFree { name: f.name.clone() });
            }
            proof {
                let chunk = self.data@.subrange(o as int, o + take);
                let rest = chain_read(d, self.base as int, self.info, f.name, next, len as int, out.len() as int, hops as int);
                assert(prefixed(before, prefixed(chunk, rest)) == prefixed(before + chunk, rest)) by {
                    assert(before + chunk == out@);
                    match rest {
                        Ok(s) => { assert(before + (chunk + s) =~= (before + chunk) + s); },
                        Err(_) => {},
                    }
                }
            }
            blk = next;
        }
    }
}


// ---------------------------------------------------------------- laws

/// A fork that reads at all starts with the bytes of its first allocation
/// block: allocation block `b` (numbered from 2) lies
/// `alloc_blk_start` sectors plus `b - 2` blocks into the volume, whose
/// sector 0 is at byte `base` of the image.
pub proof fn lemma_read_fork_first_block(
    d: Seq<u8>,
    base: int,
    info: VolumeInfo,
    f: FileEntry,
    fork: Fork,
)
    requires
        0 <= base,
        spec_read_fork(d, base, info, f, fork) is Ok,
    ensures
        ({
            let v = spec_read_fork(d, base, info, f, fork)->Ok_0;
            let start: int = match fork {
                Fork::Data => f.data_start as int,
                Fork::Rsrc => f.rsrc_start as int,
            };
            let len: int = match fork {
                Fork::Data => f.data_len as int,
                Fork::Rsrc => f.rsrc_len as int,
            };
            let abs = info.alloc_blk_size as int;
            forall|k: int|
                0 <= k < len && k < abs ==> #[trigger] v[k] == d[base + info.alloc_blk_start * 512
                    + (start - 2) * abs + k]
        }),
{
    let (start, len) = fork_extent(f, fork);
    let abs = info.alloc_blk_size as int;
    if len > 0 {
        let off = base + info.alloc_blk_start * 512 + (start - 2) * abs;
        let take = if abs < len {
            abs
        } else {
            len
        };
        assert(spec_read_fork(d, base, info, f, fork) == chain_read(d, base, info, f.name, start, len, 0, 0));
        let v = spec_read_fork(d, base, info, f, fork)->Ok_0;
        assert(off + abs <= d.len());
        assert((start - 2) * abs >= 0) by (nonlinear_arith)
            requires
                start >= 2,
                abs >= 0,
        ;
        let chunk = d.subrange(off, off + take);
        if take < len {
            let next = spec_map_entry(d, base, info, start)->Ok_0;
            let rest = chain_read(d, base, info, f.name, next, len, take, 1);
            assert(v == chunk + rest->Ok_0);
            assert forall|k: int| 0 <= k < len && k < abs implies #[trigger] v[k] == d[off + k] by {
                assert(v[k] == chunk[k]);
            }
        } else {
            assert(v == chunk);
            assert forall|k: int| 0 <= k < len && k < abs implies #[trigger] v[k] == d[off + k] by {
                assert(v[k] == chunk[k]);
            }
        }
    }
}

/// Reading a fork does not depend on what comes before the volume in the
/// image: with any bytes `h` put in front of an image `r` and the volume's
/// sector 0 counted from the end of `h` (as in a DiskCopy 4.2 container),
/// every fork reads the same as from `r` alone, errors included.
pub proof fn lemma_read_fork_container(
    h: Seq<u8>,
    r: Seq<u8>,
    info: VolumeInfo,
    f: FileEntry,
    fork: Fork,
)
    ensures
        spec_read_fork(h + r, h.len() as int, info, f, fork) == spec_read_fork(r, 0, info, f, fork),
{
    let (start, len) = fork_extent(f, fork);
    if len > 0 && start >= 2 {
        lemma_chain_read_shift(h, r, info, f.name, start, len, 0, 0);
    }
}

proof fn lemma_map_entry_shift(h: Seq<u8>, r: Seq<u8>, info: VolumeInfo, blk: u16)
    ensures
        spec_map_entry(h + r, h.len() as int, info, blk) == spec_map_entry(r, 0, info, blk),
{
    let d = h + r;
    let hl = h.len() as int;
    if blk >= 2 && blk - 2 < info.num_alloc_blks {
        let idx = blk - 2;
        let o = map_offset(0, idx);
        assert(map_offset(hl, idx) == hl + o);
        if o + 3 <= r.len() {
            assert(d[hl + o] == r[o]);
            assert(d[hl + o + 1] == r[o + 1]);
            assert(d[hl + o + 2] == r[o + 2]);
        }
    }
}

proof fn lemma_chain_read_shift(
    h: Seq<u8>,
    r: Seq<u8>,
    info: VolumeInfo,
    name: String,
    blk: u16,
    len: int,
    got: int,
    hops: int,
)
    requires
        0 <= got < len,
    ensures
        chain_read(h + r, h.len() as int, info, name, blk, len, got, hops) == chain_read(
            r,
            0,
            info,
            name,
            blk,
            len,
            got,
            hops,
        ),
    decreases info.num_alloc_blks + 3 - hops,
{
    let d = h + r;
    let hl = h.len() as int;
    let hops1 = hops + 1;
    if hops1 > info.num_alloc_blks + 2 {
    } else if blk < 2 || blk - 2 >= info.num_alloc_blks {
    } else {
        let abs = info.alloc_blk_size as int;
        let off0 = info.alloc_blk_start * 512 + (blk - 2) * abs;
        assert(hl + info.alloc_blk_start * 512 + (blk - 2) * abs == hl + off0);
        assert((blk - 2) * abs >= 0) by (nonlinear_arith)
            requires
                blk >= 2,
                abs >= 0,
        ;
        if off0 + abs <= r.len() {
            let take = if abs < len - got {
                abs
            } else {
                len - got
            };
            assert(d.subrange(hl + off0, hl + off0 + take) =~= r.subrange(off0, off0 + take));
            if got + take < len {
                lemma_map_entry_shift(h, r, info, blk);
                match spec_map_entry(r, 0, info, blk) {
                    Err(_) => {},
                    Ok(next) => {
                        lemma_chain_read_shift(h, r, info, name, next, len, got + take, hops1);
                    },
                }
            }
        }
    }
}

proof fn lemma_sector_entries_bounds(d: Seq<u8>, off: int, end: int)
    ensures
        forall|j: int|
            0 <= j < sector_entries(d, off, end).len() ==> {
                let o = #[trigger] sector_entries(d, off, end)[j];
                &&& off <= o
                &&& (o - off) % 2 == 0
                &&& o + 0x33 + d[o + 0x32] <= end
                &&& d[o] & 0x80 != 0
            },
    decreases end - off,
{
    if off + 0x33 <= end && d[off] & 0x80 != 0 && off + entry_size(d, off) <= end {
        let es = entry_size(d, off);
        lemma_sector_entries_bounds(d, off + es, end);
        let rest = sector_entries(d, off + es, end);
        let all = sector_entries(d, off, end);
        assert(all == seq![off] + rest);
        assert(es % 2 == 0);
        assert forall|j: int| 0 <= j < all.len() implies {
            let o = #[trigger] all[j];
            &&& off <= o
            &&& (o - off) % 2 == 0
            &&& o + 0x33 + d[o + 0x32] <= end
            &&& d[o] & 0x80 != 0
        } by {
            if j > 0 {
                assert(all[j] == rest[j - 1]);
                assert((all[j] - off) == (all[j] - (off + es)) + es);
            }
        }
    }
}

proof fn lemma_dir_entries_bounds(d: Seq<u8>, base: int, start: int, count: int)
    requires
        0 <= base,
        0 <= start,
    ensures
        forall|j: int|
            0 <= j < dir_entries(d, base, start, count).len() ==> {
                let o = #[trigger] dir_entries(d, base, start, count)[j];
                &&& base + start * 512 <= o
                &&& (o - base) % 2 == 0
                &&& o + 0x33 + d[o + 0x32] <= base + (start + count) * 512
                &&& d[o] & 0x80 != 0
            },
    decreases count,
{
    if count > 0 {
        lemma_dir_entries_bounds(d, base, start, count - 1);
        let sec = base + (start + count - 1) * 512;
        lemma_sector_entries_bounds(d, sec, sec + 512);
        let a = dir_entries(d, base, start, count - 1);
        let b = sector_entries(d, sec, sec + 512);
        let all = dir_entries(d, base, start, count);
        assert(all == a + b);
        assert forall|j: int| 0 <= j < all.len() implies {
            let o = #[trigger] all[j];
            &&& base + start * 512 <= o
            &&& (o - base) % 2 == 0
            &&& o + 0x33 + d[o + 0x32] <= base + (start + count) * 512
            &&& d[o] & 0x80 != 0
        } by {
            if j < a.len() {
                assert(all[j] == a[j]);
            } else {
                assert(all[j] == b[j - a.len()]);
                assert(all[j] - base == (all[j] - sec) + (start + count - 1) * 512);
            }
        }
    }
}

/// Directory entries are read at their fixed offsets (Inside Macintosh
/// II, the file directory): with `o` the byte offset of entry `i` in the
/// image, bit 0 of byte `o` is the lock, type at `o+0x02`, creator at
/// `o+0x06`, Finder flags at `o+0x0A`, icon position at `o+0x0C` and
/// `o+0x0E`, folder at `o+0x10`, file number at `o+0x12`, data fork start
/// block, length and physical length at `o+0x16`, `o+0x18`, `o+0x1C`,
/// resource fork ones at `o+0x20`, `o+0x22`, `o+0x26`, creation date at
/// `o+0x2A`, modification date at `o+0x2E`, name length at `o+0x32` and the
/// name after it; all numbers big-endian. Each entry lies inside the
/// directory sectors, at an even distance from sector 0 (entries are
/// padded to even length), and has its in-use bit (0x80 of byte `o`) set.
pub proof fn lemma_entry_fields(files: Seq<FileEntry>, d: Seq<u8>, base: int, info: VolumeInfo)
    requires
        0 <= base,
        base + (info.dir_start + info.dir_len) * 512 <= d.len(),
        directory_matches(files, d, base, info),
    ensures
        forall|i: int|
            0 <= i < files.len() ==> {
                let f = #[trigger] files[i];
                let o = dir_entries(d, base, info.dir_start as int, info.dir_len as int)[i];
                &&& base + info.dir_start * 512 <= o
                &&& (o - base) % 2 == 0
                &&& o + 0x33 + d[o + 0x32] <= base + (info.dir_start + info.dir_len) * 512
                &&& d[o] & 0x80 != 0
                &&& f.locked == (d[o] % 2 == 1)
                &&& f.type_code@ == seq![d[o + 0x02], d[o + 0x03], d[o + 0x04], d[o + 0x05]]
                &&& f.creator@ == seq![d[o + 0x06], d[o + 0x07], d[o + 0x08], d[o + 0x09]]
                &&& f.finder_flags == d[o + 0x0A] * 256 + d[o + 0x0B]
                &&& f.location_v as u16 == d[o + 0x0C] * 256 + d[o + 0x0D]
                &&& f.location_h as u16 == d[o + 0x0E] * 256 + d[o + 0x0F]
                &&& f.folder == d[o + 0x10] * 256 + d[o + 0x11]
                &&& f.file_num == d[o + 0x12] * 16777216 + d[o + 0x13] * 65536 + d[o + 0x14] * 256 + d[o + 0x15]
                &&& f.data_start == d[o + 0x16] * 256 + d[o + 0x17]
                &&& f.data_len == d[o + 0x18] * 16777216 + d[o + 0x19] * 65536 + d[o + 0x1A] * 256 + d[o + 0x1B]
                &&& f.data_phys == d[o + 0x1C] * 16777216 + d[o + 0x1D] * 65536 + d[o + 0x1E] * 256 + d[o + 0x1F]
                &&& f.rsrc_start == d[o + 0x20] * 256 + d[o + 0x21]
                &&& f.rsrc_len == d[o + 0x22] * 16777216 + d[o + 0x23] * 65536 + d[o + 0x24] * 256 + d[o + 0x25]
                &&& f.rsrc_phys == d[o + 0x26] * 16777216 + d[o + 0x27] * 65536 + d[o + 0x28] * 256 + d[o + 0x29]
                &&& f.create_date == d[o + 0x2A] * 16777216 + d[o + 0x2B] * 65536 + d[o + 0x2C] * 256 + d[o + 0x2D]
                &&& f.mod_date == d[o + 0x2E] * 16777216 + d[o + 0x2F] * 65536 + d[o + 0x30] * 256 + d[o + 0x31]
                &&& f.raw_name@.len() == d[o + 0x32]
                &&& forall|k: int| 0 <= k < d[o + 0x32] ==> f.raw_name@[k] == d[o + 0x33 + k]
            },
{
    let offs = dir_entries(d, base, info.dir_start as int, info.dir_len as int);
    lemma_dir_entries_bounds(d, base, info.dir_start as int, info.dir_len as int);
    assert forall|i: int| 0 <= i < files.len() implies {
        let f = #[trigger] files[i];
        let o = offs[i];
        &&& base + info.dir_start * 512 <= o
        &&& (o - base) % 2 == 0
        &&& o + 0x33 + d[o + 0x32] <= base + (info.dir_start + info.dir_len) * 512
        &&& d[o] & 0x80 != 0
        &&& f.locked == (d[o] % 2 == 1)
        &&& f.type_code@ == seq![d[o + 0x02], d[o + 0x03], d[o + 0x04], d[o + 0x05]]
        &&& f.creator@ == seq![d[o + 0x06], d[o + 0x07], d[o + 0x08], d[o + 0x09]]
        &&& f.finder_flags == d[o + 0x0A] * 256 + d[o + 0x0B]
        &&& f.location_v as u16 == d[o + 0x0C] * 256 + d[o + 0x0D]
        &&& f.location_h as u16 == d[o + 0x0E] * 256 + d[o + 0x0F]
        &&& f.folder == d[o + 0x10] * 256 + d[o + 0x11]
        &&& f.file_num == d[o + 0x12] * 16777216 + d[o + 0x13] * 65536 + d[o + 0x14] * 256 + d[o + 0x15]
        &&& f.data_start == d[o + 0x16] * 256 + d[o + 0x17]
        &&& f.data_len == d[o + 0x18] * 16777216 + d[o + 0x19] * 65536 + d[o + 0x1A] * 256 + d[o + 0x1B]
        &&& f.data_phys == d[o + 0x1C] * 16777216 + d[o + 0x1D] * 65536 + d[o + 0x1E] * 256 + d[o + 0x1F]
        &&& f.rsrc_start == d[o + 0x20] * 256 + d[o + 0x21]
        &&& f.rsrc_len == d[o + 0x22] * 16777216 + d[o + 0x23] * 65536 + d[o + 0x24] * 256 + d[o + 0x25]
        &&& f.rsrc_phys == d[o + 0x26] * 16777216 + d[o + 0x27] * 65536 + d[o + 0x28] * 256 + d[o + 0x29]
        &&& f.create_date == d[o + 0x2A] * 16777216 + d[o + 0x2B] * 65536 + d[o + 0x2C] * 256 + d[o + 0x2D]
        &&& f.mod_date == d[o + 0x2E] * 16777216 + d[o + 0x2F] * 65536 + d[o + 0x30] * 256 + d[o + 0x31]
        &&& f.raw_name@.len() == d[o + 0x32]
        &&& forall|k: int| 0 <= k < d[o + 0x32] ==> f.raw_name@[k] == d[o + 0x33 + k]
    } by {
        let o = offs[i];
        assert(base + info.dir_start * 512 <= o);
        lemma_entry_at(files[i], d, o);
    }
}

proof fn lemma_entry_at(f: FileEntry, d: Seq<u8>, o: int)
    requires
        0 <= o,
        o + 0x33 + d[o + 0x32] <= d.len(),
        entry_matches(f, d, o),
    ensures
        f.locked == (d[o] % 2 == 1),
        f.type_code@ == seq![d[o + 0x02], d[o + 0x03], d[o + 0x04], d[o + 0x05]],
        f.creator@ == seq![d[o + 0x06], d[o + 0x07], d[o + 0x08], d[o + 0x09]],
        f.finder_flags == d[o + 0x0A] * 256 + d[o + 0x0B],
        f.location_v as u16 == d[o + 0x0C] * 256 + d[o + 0x0D],
        f.location_h as u16 == d[o + 0x0E] * 256 + d[o + 0x0F],
        f.folder == d[o + 0x10] * 256 + d[o + 0x11],
        f.file_num == d[o + 0x12] * 16777216 + d[o + 0x13] * 65536 + d[o + 0x14] * 256 + d[o + 0x15],
        f.data_start == d[o + 0x16] * 256 + d[o + 0x17],
        f.data_len == d[o + 0x18] * 16777216 + d[o + 0x19] * 65536 + d[o + 0x1A] * 256 + d[o + 0x1B],
        f.data_phys == d[o + 0x1C] * 16777216 + d[o + 0x1D] * 65536 + d[o + 0x1E] * 256 + d[o + 0x1F],
        f.rsrc_start == d[o + 0x20] * 256 + d[o + 0x21],
        f.rsrc_len == d[o + 0x22] * 16777216 + d[o + 0x23] * 65536 + d[o + 0x24] * 256 + d[o + 0x25],
        f.rsrc_phys == d[o + 0x26] * 16777216 + d[o + 0x27] * 65536 + d[o + 0x28] * 256 + d[o + 0x29],
        f.create_date == d[o + 0x2A] * 16777216 + d[o + 0x2B] * 65536 + d[o + 0x2C] * 256 + d[o + 0x2D],
        f.mod_date == d[o + 0x2E] * 16777216 + d[o + 0x2F] * 65536 + d[o + 0x30] * 256 + d[o + 0x31],
        f.raw_name@.len() == d[o + 0x32],
        forall|k: int| 0 <= k < d[o + 0x32] ==> f.raw_name@[k] == d[o + 0x33 + k],
{
    let b = d[o];
    assert((b & 0x01 != 0) == (b % 2 == 1)) by (bit_vector);
    assert(f.type_code@ =~= seq![d[o + 0x02], d[o + 0x03], d[o + 0x04], d[o + 0x05]]);
    assert(f.creator@ =~= seq![d[o + 0x06], d[o + 0x07], d[o + 0x08], d[o + 0x09]]);
    let v: u16 = spec_be16(d, o + 0x0C) as u16;
    let w: u16 = spec_be16(d, o + 0x0E) as u16;
    assert(((v as i16) as u16) == v) by (bit_vector);
    assert(((w as i16) as u16) == w) by (bit_vector);
    assert(0 <= spec_be16(d, o + 0x0C) < 65536);
    assert(0 <= spec_be16(d, o + 0x0E) < 65536);
}

/// The master directory block is read at its fixed offsets (Inside
/// Macintosh II): it is sector 2 of the volume, and from its start `m`,
/// creation and backup dates at `m+0x02` and `m+0x06`, attributes at
/// `m+0x0A`, file count at `m+0x0C`, directory start sector and length at
/// `m+0x0E` and `m+0x10`, allocation block count at `m+0x12`, block size at
/// `m+0x14`, clump size at `m+0x18`, first allocation block sector at
/// `m+0x1C`, next file number at `m+0x1E`, free block count at `m+0x22`,
/// name length at `m+0x24` (at most 27 used) with one character per name
/// byte; all numbers big-endian.
pub proof fn lemma_mdb_fields(info: VolumeInfo, d: Seq<u8>, base: int)
    requires
        0 <= base,
        base + 3 * 512 <= d.len(),
        info_matches(info, d, base),
    ensures
        ({
            let m = base + 1024;
            &&& info.create_date == d[m + 0x02] * 16777216 + d[m + 0x03] * 65536 + d[m + 0x04] * 256 + d[m + 0x05]
            &&& info.backup_date == d[m + 0x06] * 16777216 + d[m + 0x07] * 65536 + d[m + 0x08] * 256 + d[m + 0x09]
            &&& info.attributes == d[m + 0x0a] * 256 + d[m + 0x0b]
            &&& info.num_files == d[m + 0x0c] * 256 + d[m + 0x0d]
            &&& info.dir_start == d[m + 0x0e] * 256 + d[m + 0x0f]
            &&& info.dir_len == d[m + 0x10] * 256 + d[m + 0x11]
            &&& info.num_alloc_blks == d[m + 0x12] * 256 + d[m + 0x13]
            &&& info.alloc_blk_size == d[m + 0x14] * 16777216 + d[m + 0x15] * 65536 + d[m + 0x16] * 256 + d[m + 0x17]
            &&& info.clump_size == d[m + 0x18] * 16777216 + d[m + 0x19] * 65536 + d[m + 0x1a] * 256 + d[m + 0x1b]
            &&& info.alloc_blk_start == d[m + 0x1c] * 256 + d[m + 0x1d]
            &&& info.next_file_num == d[m + 0x1e] * 16777216 + d[m + 0x1f] * 65536 + d[m + 0x20] * 256 + d[m + 0x21]
            &&& info.free_blks == d[m + 0x22] * 256 + d[m + 0x23]
            &&& info.name@.len() == (if d[m + 0x24] < 27 { d[m + 0x24] as int } else { 27int })
        }),
{
    let m = base + 1024;
    let n = vol_name_len(d, m);
    assert(info.name@ == macroman_text(d.subrange(m + 0x25, m + 0x25 + n)));
}

proof fn lemma_sector_entries_shift(h: Seq<u8>, r: Seq<u8>, off: int, end: int)
    requires
        0 <= off,
        end <= r.len(),
    ensures
        sector_entries(h + r, off + h.len(), end + h.len()) == sector_entries(r, off, end).map_values(
            |o: int| o + h.len(),
        ),
    decreases end - off,
{
    let d = h + r;
    let hl = h.len() as int;
    if off + 0x33 <= end {
        assert(d[off + hl] == r[off]);
        assert(d[off + hl + 0x32] == r[off + 0x32]);
        assert(entry_size(d, off + hl) == entry_size(r, off));
        if r[off] & 0x80 != 0 && off + entry_size(r, off) <= end {
            let es = entry_size(r, off);
            lemma_sector_entries_shift(h, r, off + es, end);
            assert(off + hl + es == (off + es) + hl);
            assert(sector_entries(d, off + hl, end + hl) == seq![off + hl] + sector_entries(
                d,
                (off + es) + hl,
                end + hl,
            ));
            assert(sector_entries(r, off, end) == seq![off] + sector_entries(r, off + es, end));
            assert(sector_entries(d, off + hl, end + hl) =~= sector_entries(r, off, end).map_values(
                |o: int| o + hl,
            ));
        } else {
            assert(sector_entries(r, off, end).map_values(|o: int| o + hl) =~= Seq::<int>::empty());
        }
    } else {
        assert(sector_entries(r, off, end).map_values(|o: int| o + hl) =~= Seq::<int>::empty());
    }
}

proof fn lemma_dir_entries_shift(h: Seq<u8>, r: Seq<u8>, start: int, count: int)
    requires
        0 <= start,
        (start + count) * 512 <= r.len(),
    ensures
        dir_entries(h + r, h.len() as int, start, count) == dir_entries(r, 0, start, count).map_values(
            |o: int| o + h.len(),
        ),
    decreases count,
{
    let hl = h.len() as int;
    if count > 0 {
        lemma_dir_entries_shift(h, r, start, count - 1);
        let sec = (start + count - 1) * 512;
        lemma_sector_entries_shift(h, r, sec, sec + 512);
        assert(hl + (start + count - 1) * 512 == sec + hl);
        assert(dir_entries(h + r, hl, start, count).len() == dir_entries(r, 0, start, count).len());
        assert(dir_entries(h + r, hl, start, count) =~= dir_entries(r, 0, start, count).map_values(
            |o: int| o + hl,
        ));
    } else {
        assert(dir_entries(r, 0, start, count).map_values(|o: int| o + hl) =~= Seq::<int>::empty());
    }
}

proof fn lemma_entry_matches_shift(h: Seq<u8>, r: Seq<u8>, f: FileEntry, o: int)
    requires
        0 <= o,
        o + 0x33 + r[o + 0x32] <= r.len(),
    ensures
        entry_matches(f, h + r, o + h.len()) == entry_matches(f, r, o),
{
    let d = h + r;
    let hl = h.len() as int;
    assert(forall|k: int| 0 <= k < r.len() ==> d[hl + k] == #[trigger] r[k]);
    assert(d.subrange(o + hl + 0x02, o + hl + 0x06) =~= r.subrange(o + 0x02, o + 0x06));
    assert(d.subrange(o + hl + 0x06, o + hl + 0x0A) =~= r.subrange(o + 0x06, o + 0x0A));
    assert(d[o + hl + 0x32] == r[o + 0x32]);
    assert(d.subrange(o + hl + 0x33, o + hl + 0x33 + d[o + hl + 0x32]) =~= r.subrange(
        o + 0x33,
        o + 0x33 + r[o + 0x32],
    ));
    assert(d[o + hl] == r[o]);
    assert(d[o + hl + 0x0A] == r[o + 0x0A] && d[o + hl + 0x0B] == r[o + 0x0B]);
}

/// A volume reads the same from a DiskCopy 4.2 container as from the raw
/// image inside it: with `h` the 84-byte container header (magic 0x0100
/// at 0x52) in front of a raw image `r` that opens, where `h ++ r` is not
/// itself taken for a raw image, sector 0 is found at byte 84, the same
/// errors or none come up, and exactly the same volume information and
/// files are read. (Forks then read the same: `lemma_read_fork_container`.)
pub proof fn lemma_diskcopy_container(h: Seq<u8>, r: Seq<u8>)
    requires
        h.len() == 84,
        h[0x52] == 0x01,
        h[0x53] == 0x00,
        sig_at(r, 0),
        r.len() > 3 * 512,
        !sig_at(h + r, 0),
    ensures
        spec_find_base(h + r) == Ok::<usize, MfsError>(84),
        spec_find_base(r) == Ok::<usize, MfsError>(0),
        open_error(h + r) == open_error(r),
        forall|info: VolumeInfo| info_matches(info, h + r, 84) == info_matches(info, r, 0),
        open_error(r) is None ==> forall|info: VolumeInfo, files: Seq<FileEntry>|
            info_matches(info, r, 0) ==> directory_matches(files, h + r, 84, info)
                == directory_matches(files, r, 0, info),
{
    let d = h + r;
    let m = 1024int;
    assert(d[0x52] == h[0x52] && d[0x53] == h[0x53]);
    assert(d[84 + m] == r[m] && d[84 + m + 1] == r[m + 1]);
    assert(forall|k: int| 0 <= k < r.len() ==> d[84 + k] == #[trigger] r[k]);
    assert forall|info: VolumeInfo| info_matches(info, d, 84) == info_matches(info, r, 0) by {
        let n = vol_name_len(r, m);
        assert(vol_name_len(d, 84 + m) == n);
        assert(d.subrange(84 + m + 0x25, 84 + m + 0x25 + n) =~= r.subrange(m + 0x25, m + 0x25 + n));
    }
    assert(mdb_error(d, 84) == mdb_error(r, 0));
    if open_error(r) is None {
        assert forall|info: VolumeInfo, files: Seq<FileEntry>|
            info_matches(info, r, 0) implies directory_matches(files, d, 84, info)
                == directory_matches(files, r, 0, info) by {
            let start = info.dir_start as int;
            let count = info.dir_len as int;
            assert((start + count) * 512 <= r.len());
            lemma_dir_entries_shift(h, r, start, count);
            lemma_dir_entries_bounds(r, 0, start, count);
            let offs = dir_entries(r, 0, start, count);
            let offs2 = dir_entries(d, 84, start, count);
            assert(offs2.len() == offs.len());
            assert forall|i: int| 0 <= i < offs.len() implies entry_matches(files[i], d, offs2[i])
                == entry_matches(files[i], r, offs[i]) by {
                let o = offs[i];
                assert(offs2[i] == o + 84);
                lemma_entry_matches_shift(h, r, files[i], o);
            }
            if directory_matches(files, r, 0, info) {
                assert forall|i: int| 0 <= i < files.len() implies entry_matches(
                    #[trigger] files[i],
                    d,
                    offs2[i],
                ) by {
                    assert(entry_matches(files[i], r, offs[i]));
                }
            }
            if directory_matches(files, d, 84, info) {
                assert forall|i: int| 0 <= i < files.len() implies entry_matches(
                    #[trigger] files[i],
                    r,
                    offs[i],
                ) by {
                    assert(entry_matches(files[i], d, offs2[i]));
                }
            }
        }
    }
}

/// The allocation map is a string of 12-bit entries, big-endian, right
/// after the 64 bytes of volume information in the master directory block
/// (sector 2): entries `2j` and `2j + 1` share the three bytes at
/// `3j`, the first taking the high 12 bits of those 24.
pub proof fn lemma_map_entry_bits(d: Seq<u8>, base: int, idx: int)
    requires
        0 <= base,
        0 <= idx,
        base + 1024 + 64 + (idx / 2) * 3 + 3 <= d.len(),
    ensures
        ({
            let off = base + 1024 + 64 + (idx / 2) * 3;
            let pair = d[off] * 65536 + d[off + 1] * 256 + d[off + 2];
            map_value(d, base, idx) == if idx % 2 == 0 {
                pair / 4096
            } else {
                pair % 4096
            }
        }),
{
    let off = base + 1024 + 64 + (idx / 2) * 3;
    assert(map_offset(base, idx) == off);
    let b0 = d[off] as int;
    let b1 = d[off + 1] as int;
    let b2 = d[off + 2] as int;
    let pair = b0 * 65536 + b1 * 256 + b2;
    assert(pair / 4096 == b0 * 16 + b1 / 16 && pair % 4096 == (b1 % 16) * 256 + b2) by (nonlinear_arith)
        requires
            0 <= b0 < 256,
            0 <= b1 < 256,
            0 <= b2 < 256,
            pair == b0 * 65536 + b1 * 256 + b2,
    {
        let q = b1 / 16;
        let rr = b1 % 16;
        assert(b1 == 16 * q + rr);
        assert(pair == 4096 * (b0 * 16 + q) + (rr * 256 + b2));
        vstd::arithmetic::div_mod::lemma_fundamental_div_mod_converse(pair, 4096, b0 * 16 + q, rr * 256 + b2);
    }
}

} // verus!
