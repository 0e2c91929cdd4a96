//! MacBinary II encoder (the format hcopy -m produces).
//!
//! 128-byte header, then the data fork and resource fork, each padded
//! with zeros to a 128-byte boundary. Header bytes 124-125 hold a
//! CRC-16/XMODEM of bytes 0-123.

use vstd::prelude::*;
use crate::bytes::{be16_bytes, be32_bytes, push_be16, push_be32, push_slice, push_zeros, zeros};
use crate::mfs::{spec_be16, FileEntry};
use crate::util::{crc16, spec_crc16};

verus! {

/// Length of the stored name: at most 63 bytes.
pub open spec fn mb_name_len(f: FileEntry) -> int {
    if f.raw_name@.len() < 63 {
        f.raw_name@.len() as int
    } else {
        63
    }
}

/// Bytes 0..124 of the header: version 0, the name (length byte and 63
/// bytes), type, creator, Finder flags (high byte at 73, low byte at 101),
/// icon position, folder, locked flag, fork lengths, dates, and the
/// MacBinary II version bytes 129, 129 at 122 and 123.
pub open spec fn mb_header_body(f: FileEntry, dlen: u32, rlen: u32) -> Seq<u8> {
    let n = mb_name_len(f);
    seq![0u8, n as u8] + f.raw_name@.take(n) + zeros((63 - n) as nat) + f.type_code@
        + f.creator@ + seq![(f.finder_flags / 256) as u8, 0u8] + be16_bytes(f.location_v as u16)
        + be16_bytes(f.location_h as u16) + be16_bytes(f.folder) + seq![
        if f.locked {
            1u8
        } else {
            0u8
        },
        0u8,
    ] + be32_bytes(dlen) + be32_bytes(rlen) + be32_bytes(f.create_date) + be32_bytes(f.mod_date)
        + seq![0u8, 0u8, (f.finder_flags % 256) as u8] + zeros(20) + seq![129u8, 129u8]
}

/// The 128-byte header: the body, its CRC, two zero bytes.
pub open spec fn mb_header(f: FileEntry, dlen: u32, rlen: u32) -> Seq<u8> {
    let body = mb_header_body(f, dlen, rlen);
    body + be16_bytes(spec_crc16(body, 0)) + zeros(2)
}

/// `s` followed by zeros up to the next multiple of 128 bytes.
pub open spec fn padded(s: Seq<u8>) -> Seq<u8> {
    s + zeros(((128 - s.len() % 128) % 128) as nat)
}

/// A whole MacBinary II file.
pub open spec fn macbinary_image(f: FileEntry, data: Seq<u8>, rsrc: Seq<u8>) -> Seq<u8> {
    padded(padded(mb_header(f, data.len() as u32, rsrc.len() as u32) + data) + rsrc)
}

fn pad128(v: &mut Vec<u8>)
    ensures
        final(v)@ == padded(old(v)@),
{
    let ghost o = v@;
    while v.len() % 128 != 0
        invariant
            o.len() <= v.len() <= o.len() + (128 - o.len() % 128) % 128,
            v@ =~= o + zeros((v.len() - o.len()) as nat),
        decreases o.len() + 128 - v.len(),
    {
        v.push(0);
    }
}

fn header_body(f: &FileEntry, dlen: u32, rlen: u32) -> (h: Vec<u8>)
    ensures
        h@ == mb_header_body(*f, dlen, rlen),
{
    let n: usize = if f.raw_name.len() < 63 {
        f.raw_name.len()
    } else {
        63
    };
    let mut h: Vec<u8> = Vec::new();
    h.push(0);
    h.push(n as u8);
    let mut k: usize = 0;
    while k < n
        invariant
            n <= f.raw_name.len(),
            k <= n,
            h@ =~= seq![0u8, n as u8] + f.raw_name@.take(k as int),
        decreases n - k,
    {
        h.push(f.raw_name[k]);
        k += 1;
    }
    push_zeros(&mut h, 63 - n);
    let ghost p1 = h@;
    push_slice(&mut h, &f.type_code);
    push_slice(&mut h, &f.creator);
    h.push((f.finder_flags / 256) as u8);
    h.push(0);
    let ghost p2 = h@;
    assert(p2 =~= p1 + f.type_code@ + f.creator@ + seq![(f.finder_flags / 256) as u8, 0u8]);
    push_be16(&mut h, f.location_v as u16);
    push_be16(&mut h, f.location_h as u16);
    push_be16(&mut h, f.folder);
    h.push(if f.locked { 1 } else { 0 });
    h.push(0);
    let ghost p3 = h@;
    assert(p3 =~= p2 + be16_bytes(f.location_v as u16) + be16_bytes(f.location_h as u16)
        + be16_bytes(f.folder) + seq![if f.locked { 1u8 } else { 0u8 }, 0u8]);
    push_be32(&mut h, dlen);
    push_be32(&mut h, rlen);
    push_be32(&mut h, f.create_date);
    push_be32(&mut h, f.mod_date);
    let ghost p4 = h@;
    assert(p4 =~= p3 + be32_bytes(dlen) + be32_bytes(rlen) + be32_bytes(f.create_date)
        + be32_bytes(f.mod_date));
    h.push(0);
    h.push(0);
    h.push((f.finder_flags % 256) as u8);
    push_zeros(&mut h, 20);
    h.push(129);  // written by MacBinary II
    h.push(129);  // minimum version to extract
    assert(h@ =~= p4 + seq![0u8, 0u8, (f.finder_flags % 256) as u8] + zeros(20) + seq![
        129u8,
        129u8,
    ]);
    assert(h@ =~= mb_header_body(*f, dlen, rlen));
    h
}

/// The header holds the CRC of its first 124 bytes, the data fork follows
/// it, and the file fills whole 128-byte blocks.
pub proof fn lemma_macbinary_layout(f: FileEntry, data: Seq<u8>, rsrc: Seq<u8>)
    ensures
        ({
            let img = macbinary_image(f, data, rsrc);
            &&& img.len() % 128 == 0
            &&& spec_be16(img, 124) == spec_crc16(img.take(124), 0)
            &&& img.subrange(128, 128 + data.len() as int) == data
        }),
{
    let body = mb_header_body(f, data.len() as u32, rsrc.len() as u32);
    let hdr = mb_header(f, data.len() as u32, rsrc.len() as u32);
    let mid = padded(hdr + data);
    let img = macbinary_image(f, data, rsrc);
    assert(body.len() == 124);
    assert(hdr.len() == 128);
    assert(img == padded(mid + rsrc));
    assert(img.take(124) =~= body);
    assert(img[124] == hdr[124] && img[125] == hdr[125]);
    assert(img.subrange(128, 128 + data.len() as int) =~= data) by {
        assert forall|i: int| 0 <= i < data.len() implies img[128 + i] == data[i] by {
            assert(img[128 + i] == mid[128 + i]);
            assert(mid[128 + i] == (hdr + data)[128 + i]);
        }
    }
}

/// Encodes a file as MacBinary II.
pub fn encode(f: &FileEntry, data: &[u8], rsrc: &[u8]) -> (out: Vec<u8>)
    ensures
        out@ == macbinary_image(*f, data@, rsrc@),
        out@.len() % 128 == 0,
        spec_be16(out@, 124) == spec_crc16(out@.take(124), 0),
        out@.subrange(128, 128 + data@.len() as int) == data@,
{
    let mut h = header_body(f, data.len() as u32, rsrc.len() as u32);
    let crc = crc16(h.as_slice(), 0);
    push_be16(&mut h, crc);
    push_zeros(&mut h, 2);
    let ghost hdr = h@;
    assert(hdr =~= mb_header(*f, data.len() as u32, rsrc.len() as u32));
    let mut out = h;
    push_slice(&mut out, data);
    pad128(&mut out);
    let ghost mid = out@;
    assert(mid == padded(hdr + data@));
    push_slice(&mut out, rsrc);
    pad128(&mut out);
    assert(out@ == padded(mid + rsrc@));
    proof {
        lemma_macbinary_layout(*f, data@, rsrc@);
    }
    out
}

proof fn lemma_mb_body_fields(f: FileEntry, dlen: u32, rlen: u32)
    ensures
        ({
            let body = mb_header_body(f, dlen, rlen);
            let n = mb_name_len(f);
            let lv = (f.location_v as u16) as int;
            let lh = (f.location_h as u16) as int;
            let cd = f.create_date as int;
            let md = f.mod_date as int;
            &&& body.len() == 124
            &&& body[0] == 0
            &&& body[1] == n
            &&& body.subrange(2, 2 + n) == f.raw_name@.take(n)
            &&& forall|k: int| 2 + n <= k < 65 ==> body[k] == 0
            &&& body.subrange(65, 69) == f.type_code@
            &&& body.subrange(69, 73) == f.creator@
            &&& body[73] == f.finder_flags / 256 && body[74] == 0
            &&& body[75] == lv / 256 && body[76] == lv % 256
            &&& body[77] == lh / 256 && body[78] == lh % 256
            &&& body[79] == f.folder / 256 && body[80] == f.folder % 256
            &&& body[81] == (if f.locked { 1int } else { 0int }) && body[82] == 0
            &&& body[83] == dlen / 16777216 && body[84] == (dlen / 65536) % 256
            &&& body[85] == (dlen / 256) % 256 && body[86] == dlen % 256
            &&& body[87] == rlen / 16777216 && body[88] == (rlen / 65536) % 256
            &&& body[89] == (rlen / 256) % 256 && body[90] == rlen % 256
            &&& body[91] == cd / 16777216 && body[92] == (cd / 65536) % 256
            &&& body[93] == (cd / 256) % 256 && body[94] == cd % 256
            &&& body[95] == md / 16777216 && body[96] == (md / 65536) % 256
            &&& body[97] == (md / 256) % 256 && body[98] == md % 256
            &&& body[99] == 0 && body[100] == 0
            &&& body[101] == f.finder_flags % 256
            &&& forall|k: int| 102 <= k < 122 ==> body[k] == 0
            &&& body[122] == 129 && body[123] == 129
        }),
{
    let n = mb_name_len(f);
    let p1 = seq![0u8, n as u8] + f.raw_name@.take(n) + zeros((63 - n) as nat);
    let p2 = p1 + f.type_code@ + f.creator@;
    let fl = seq![(f.finder_flags / 256) as u8, 0u8];
    let pos = be16_bytes(f.location_v as u16) + be16_bytes(f.location_h as u16) + be16_bytes(f.folder);
    let lk = seq![if f.locked { 1u8 } else { 0u8 }, 0u8];
    let lens = be32_bytes(dlen) + be32_bytes(rlen);
    let dates = be32_bytes(f.create_date) + be32_bytes(f.mod_date);
    let tail = seq![0u8, 0u8, (f.finder_flags % 256) as u8] + zeros(20) + seq![129u8, 129u8];
    let body = mb_header_body(f, dlen, rlen);
    assert(body =~= p2 + fl + pos + lk + lens + dates + tail);
    let q = p2 + fl + pos + lk + lens + dates + tail;
    assert(p1.len() == 65);
    assert(p1.subrange(2, 2 + n) =~= f.raw_name@.take(n));
    assert(body.subrange(2, 2 + n) =~= p1.subrange(2, 2 + n));
    assert forall|k: int| 2 + n <= k < 65 implies body[k] == 0 by {
        assert(body[k] == p1[k]);
    }
    assert(body.subrange(65, 69) =~= f.type_code@);
    assert(body.subrange(69, 73) =~= f.creator@);
    assert(body.subrange(73, 75) =~= fl);
    assert(body.subrange(75, 81) =~= pos);
    assert(body.subrange(81, 83) =~= lk);
    assert(body.subrange(83, 91) =~= lens);
    assert(body.subrange(91, 99) =~= dates);
    assert(body.subrange(99, 124) =~= tail);
    assert(body[0] == p1[0] && body[1] == p1[1]);
    assert(body[73] == fl[0] && body[74] == fl[1]);
    assert(body[75] == pos[0] && body[76] == pos[1] && body[77] == pos[2]);
    assert(body[78] == pos[3] && body[79] == pos[4] && body[80] == pos[5]);
    assert(body[81] == lk[0] && body[82] == lk[1]);
    assert(body[83] == lens[0] && body[84] == lens[1] && body[85] == lens[2] && body[86] == lens[3]);
    assert(body[87] == lens[4] && body[88] == lens[5] && body[89] == lens[6] && body[90] == lens[7]);
    assert(body[91] == dates[0] && body[92] == dates[1] && body[93] == dates[2] && body[94] == dates[3]);
    assert(body[95] == dates[4] && body[96] == dates[5] && body[97] == dates[6] && body[98] == dates[7]);
    assert(body[99] == tail[0] && body[100] == tail[1] && body[101] == tail[2]);
    assert forall|k: int| 102 <= k < 122 implies body[k] == 0 by {
        assert(body[k] == tail[k - 99]);
    }
    assert(body[122] == tail[23] && body[123] == tail[24]);
}

proof fn lemma_pad_keeps(s: Seq<u8>)
    ensures
        padded(s).len() == s.len() + (128 - s.len() % 128) % 128,
        forall|i: int| 0 <= i < s.len() ==> #[trigger] padded(s)[i] == s[i],
{
}

proof fn lemma_image_layout(body: Seq<u8>, c: Seq<u8>, data: Seq<u8>, rsrc: Seq<u8>)
    requires
        body.len() == 124,
        c.len() == 2,
    ensures
        ({
            let img = padded(padded(body + c + zeros(2) + data) + rsrc);
            let dl = data.len() as int;
            let dend = 128 + dl + (128 - dl % 128) % 128;
            &&& forall|k: int| 0 <= k < 124 ==> #[trigger] img[k] == body[k]
            &&& img[126] == 0 && img[127] == 0
            &&& img.subrange(dend, dend + rsrc.len()) == rsrc
        }),
{
    let hdr = body + c + zeros(2);
    let mid = padded(hdr + data);
    let img = padded(mid + rsrc);
    lemma_pad_keeps(hdr + data);
    lemma_pad_keeps(mid + rsrc);
    assert forall|k: int| 0 <= k < 124 implies #[trigger] img[k] == body[k] by {
        assert(img[k] == (mid + rsrc)[k]);
        assert(mid[k] == (hdr + data)[k]);
    }
    assert(img[126] == (mid + rsrc)[126] && mid[126] == (hdr + data)[126]);
    assert(img[127] == (mid + rsrc)[127] && mid[127] == (hdr + data)[127]);
    let dl = data.len() as int;
    let dend = 128 + dl + (128 - dl % 128) % 128;
    assert(img.subrange(dend, dend + rsrc.len()) =~= rsrc) by {
        assert forall|i: int| 0 <= i < rsrc.len() implies img[dend + i] == rsrc[i] by {
            assert(img[dend + i] == (mid + rsrc)[dend + i]);
        }
    }
}

/// The MacBinary II header fields at their fixed offsets, with `n` the
/// length of the stored name (the file's name cut to 63 bytes): 0 at 0;
/// `n` at 1 and the name from 2 on, zero-filled to 65; type at 65..69,
/// creator at 69..73; Finder flags high byte at 73 and low byte at 101;
/// vertical and horizontal icon position at 75 and 77, folder at 79
/// (each big-endian); the protected byte at 81 is 1 exactly for a locked
/// file; data and resource fork lengths at 83 and 87, creation and
/// modification dates at 91 and 95 (big-endian); 129 at 122 and 123; the
/// other header bytes up to 128 are zero except the CRC at 124..126. The
/// resource fork starts at the first multiple of 128 after the data fork.
pub proof fn lemma_macbinary_header_fields(f: FileEntry, data: Seq<u8>, rsrc: Seq<u8>)
    requires
        data.len() < 0x1_0000_0000,
        rsrc.len() < 0x1_0000_0000,
    ensures
        ({
            let img = macbinary_image(f, data, rsrc);
            let n: int = if f.raw_name@.len() < 63 { f.raw_name@.len() as int } else { 63 };
            let dl = data.len() as int;
            let rl = rsrc.len() as int;
            let lv = (f.location_v as u16) as int;
            let lh = (f.location_h as u16) as int;
            let cd = f.create_date as int;
            let md = f.mod_date as int;
            let dend = 128 + dl + (128 - dl % 128) % 128;
            &&& img[0] == 0
            &&& img[1] == n
            &&& img.subrange(2, 2 + n) == f.raw_name@.take(n)
            &&& forall|k: int| 2 + n <= k < 65 ==> img[k] == 0
            &&& img.subrange(65, 69) == f.type_code@
            &&& img.subrange(69, 73) == f.creator@
            &&& img[73] == f.finder_flags / 256 && img[74] == 0
            &&& img[75] == lv / 256 && img[76] == lv % 256
            &&& img[77] == lh / 256 && img[78] == lh % 256
            &&& img[79] == f.folder / 256 && img[80] == f.folder % 256
            &&& img[81] == (if f.locked { 1int } else { 0int }) && img[82] == 0
            &&& img[83] == dl / 16777216 && img[84] == (dl / 65536) % 256
            &&& img[85] == (dl / 256) % 256 && img[86] == dl % 256
            &&& img[87] == rl / 16777216 && img[88] == (rl / 65536) % 256
            &&& img[89] == (rl / 256) % 256 && img[90] == rl % 256
            &&& img[91] == cd / 16777216 && img[92] == (cd / 65536) % 256
            &&& img[93] == (cd / 256) % 256 && img[94] == cd % 256
            &&& img[95] == md / 16777216 && img[96] == (md / 65536) % 256
            &&& img[97] == (md / 256) % 256 && img[98] == md % 256
            &&& img[99] == 0 && img[100] == 0
            &&& img[101] == f.finder_flags % 256
            &&& forall|k: int| 102 <= k < 122 ==> img[k] == 0
            &&& img[122] == 129 && img[123] == 129
            &&& img[126] == 0 && img[127] == 0
            &&& img.subrange(dend, dend + rl) == rsrc
        }),
{
    let dl = data.len() as int;
    let body = mb_header_body(f, data.len() as u32, rsrc.len() as u32);
    let img = macbinary_image(f, data, rsrc);
    let n = mb_name_len(f);
    lemma_mb_body_fields(f, data.len() as u32, rsrc.len() as u32);
    lemma_image_layout(body, be16_bytes(spec_crc16(body, 0)), data, rsrc);
    assert((data.len() as u32) as int == dl);
    assert((rsrc.len() as u32) as int == rsrc.len());
    assert(img.subrange(2, 2 + n) =~= body.subrange(2, 2 + n));
    assert(img.subrange(65, 69) =~= body.subrange(65, 69));
    assert(img.subrange(69, 73) =~= body.subrange(69, 73));
    assert forall|k: int| 2 + n <= k < 65 implies img[k] == 0 by {
        assert(img[k] == body[k]);
    }
    assert forall|k: int| 102 <= k < 122 implies img[k] == 0 by {
        assert(img[k] == body[k]);
    }
}

} // verus!
