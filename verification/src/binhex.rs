//! BinHex 4.0 (.hqx) encoder.
//!
//! Stream = header (name, type/creator, flags, fork lengths) + CRC,
//! data fork + CRC, resource fork + CRC; the whole stream is RLE90
//! compressed, then 6-bit encoded with the BinHex alphabet and wrapped
//! at 64 columns between ':' delimiters.

use vstd::prelude::*;
use crate::bytes::{be16_bytes, be32_bytes, push_be16, push_be32, push_slice};
use crate::mfs::FileEntry;
use crate::util::{crc16, spec_crc16};

verus! {

/// The 64 characters of the 6-bit encoding, in order of value
/// (`!"#$%&'()*+,-012345689@ABCDEFGHIJKLMNPQRSTUVXYZ[`abcdefhijklmpqr`).
pub const ALPHABET: [u8; 64] = [
    0x21, 0x22, 0x23, 0x24, 0x25, 0x26, 0x27, 0x28, 0x29, 0x2A, 0x2B, 0x2C,
    0x2D, 0x30, 0x31, 0x32, 0x33, 0x34, 0x35, 0x36, 0x38, 0x39, 0x40, 0x41,
    0x42, 0x43, 0x44, 0x45, 0x46, 0x47, 0x48, 0x49, 0x4A, 0x4B, 0x4C, 0x4D,
    0x4E, 0x50, 0x51, 0x52, 0x53, 0x54, 0x55, 0x56, 0x58, 0x59, 0x5A, 0x5B,
    0x60, 0x61, 0x62, 0x63, 0x64, 0x65, 0x66, 0x68, 0x69, 0x6A, 0x6B, 0x6C,
    0x6D, 0x70, 0x71, 0x72,
];

const MARKER: u8 = 0x90;

/// The text line that opens every BinHex 4.0 file, and an empty line.
pub const INTRO: [u8; 47] = [
    0x28, 0x54, 0x68, 0x69, 0x73, 0x20, 0x66, 0x69, 0x6C, 0x65, 0x20, 0x6D,
    0x75, 0x73, 0x74, 0x20, 0x62, 0x65, 0x20, 0x63, 0x6F, 0x6E, 0x76, 0x65,
    0x72, 0x74, 0x65, 0x64, 0x20, 0x77, 0x69, 0x74, 0x68, 0x20, 0x42, 0x69,
    0x6E, 0x48, 0x65, 0x78, 0x20, 0x34, 0x2E, 0x30, 0x29, 0x0A, 0x0A,
];

// ---------------------------------------------------------------- RLE90

/// Length of the run of bytes equal to `s[0]` within `s[..k']` for the
/// largest `k' <= 255` it reaches, given that `s[..k]` is such a run.
pub open spec fn run_from(s: Seq<u8>, k: int) -> int
    decreases s.len() - k,
{
    if k < s.len() && k < 255 && s[k] == s[0] {
        run_from(s, k + 1)
    } else {
        k
    }
}

/// Length of the run of equal bytes that starts `s` (non-empty), capped
/// at 255.
pub open spec fn run_len(s: Seq<u8>) -> int {
    run_from(s, 1)
}

/// `n` copies of `t`.
pub open spec fn repeat(t: Seq<u8>, n: nat) -> Seq<u8>
    decreases n,
{
    if n == 0 {
        Seq::empty()
    } else {
        repeat(t, (n - 1) as nat) + t
    }
}

/// How a run of `n` bytes `b` is written: the marker is always escaped
/// as `0x90 0x00` per byte; runs of 4 or more other bytes become
/// `b 0x90 n`; shorter runs stay literal.
pub open spec fn rle_token(b: u8, n: nat) -> Seq<u8> {
    if b == 0x90 {
        repeat(seq![0x90u8, 0x00u8], n)
    } else if n >= 4 {
        seq![b, 0x90u8, n as u8]
    } else {
        repeat(seq![b], n)
    }
}

/// RLE90 compression, run by run from the front.
pub open spec fn spec_rle90(s: Seq<u8>) -> Seq<u8>
    decreases s.len(),
{
    if s.len() == 0 {
        Seq::empty()
    } else {
        let r = run_len(s);
        if 1 <= r <= s.len() {
            rle_token(s[0], r as nat) + spec_rle90(s.skip(r))
        } else {
            Seq::empty()
        }
    }
}

proof fn lemma_run_from(s: Seq<u8>, k: int)
    requires
        1 <= k <= s.len(),
        k <= 255,
        forall|j: int| 0 <= j < k ==> #[trigger] s[j] == s[0],
    ensures
        k <= run_from(s, k) <= s.len(),
        run_from(s, k) <= 255,
        forall|j: int| 0 <= j < run_from(s, k) ==> #[trigger] s[j] == s[0],
    decreases s.len() - k,
{
    if k < s.len() && k < 255 && s[k] == s[0] {
        lemma_run_from(s, k + 1);
    }
}

/// The run that starts a non-empty sequence is 1 to 255 bytes long and
/// lies within it.
pub proof fn lemma_run_len(s: Seq<u8>)
    requires
        s.len() > 0,
    ensures
        1 <= run_len(s) <= s.len(),
        run_len(s) <= 255,
        forall|j: int| 0 <= j < run_len(s) ==> #[trigger] s[j] == s[0],
{
    lemma_run_from(s, 1);
}

fn push_repeat(out: &mut Vec<u8>, t0: u8, t1: Option<u8>, n: usize)
    ensures
        final(out)@ == old(out)@ + repeat(
            match t1 {
                Some(b) => seq![t0, b],
                None => seq![t0],
            },
            n as nat,
        ),
{
    let ghost t = match t1 {
        Some(b) => seq![t0, b],
        None => seq![t0],
    };
    let ghost o = out@;
    let mut k: usize = 0;
    while k < n
        invariant
            k <= n,
            t == match t1 {
                Some(b) => seq![t0, b],
                None => seq![t0],
            },
            out@ =~= o + repeat(t, k as nat),
        decreases n - k,
    {
        let ghost before = out@;
        out.push(t0);
        match t1 {
            Some(b) => out.push(b),
            None => {},
        }
        assert(out@ =~= before + t);
        k += 1;
    }
}

/// RLE90: runs of 4..=255 identical bytes become `byte 0x90 count`;
/// a literal 0x90 is escaped as `0x90 0x00`.
fn rle90(input: &[u8]) -> (out: Vec<u8>)
    ensures
        out@ == spec_rle90(input@),
        unrle(Seq::empty(), out@) == input@,
        out.len() <= 2 * input.len(),
{
    let mut out = Vec::with_capacity(input.len());
    let mut i: usize = 0;
    proof {
        assert(input@.skip(0) =~= input@);
    }
    while i < input.len()
        invariant
            i <= input.len(),
            out@ + spec_rle90(input@.skip(i as int)) == spec_rle90(input@),
        decreases input.len() - i,
    {
        let ghost rest = input@.skip(i as int);
        let b = input[i];
        let mut run: usize = 1;
        while i + run < input.len() && input[i + run] == b && run < 255
            invariant
                i < input.len(),
                rest == input@.skip(i as int),
                b == rest[0],
                1 <= run <= 255,
                i + run <= input.len(),
                run_from(rest, run as int) == run_len(rest),
            decreases input.len() - i - run,
        {
            run += 1;
        }
        proof {
            lemma_run_len(rest);
            assert(run == run_len(rest));
            assert(rest.skip(run as int) =~= input@.skip(i + run));
        }
        let ghost before = out@;
        if b == MARKER {
            // Always escape the marker literally; never RLE it.
            push_repeat(&mut out, MARKER, Some(0x00), run);
        } else if run >= 4 {
            out.push(b);
            out.push(MARKER);
            out.push(run as u8);
            assert(out@ =~= before + seq![b, 0x90u8, run as u8]);
        } else {
            push_repeat(&mut out, b, None, run);
        }
        proof {
            assert(out@ == before + rle_token(b, run as nat));
            assert(spec_rle90(rest) == rle_token(b, run as nat) + spec_rle90(input@.skip(i + run)));
            assert(out@ + spec_rle90(input@.skip(i + run)) =~= before + spec_rle90(rest));
        }
        i += run;
    }
    proof {
        assert(spec_rle90(input@.skip(input.len() as int)) =~= Seq::<u8>::empty());
        assert(out@ + Seq::<u8>::empty() =~= out@);
        lemma_rle90_roundtrip(Seq::empty(), input@);
        assert(Seq::<u8>::empty() + input@ =~= input@);
        lemma_rle90_at_most_double(input@);
    }
    out
}

proof fn lemma_repeat_len(t: Seq<u8>, n: nat)
    ensures
        repeat(t, n).len() == t.len() * n,
    decreases n,
{
    if n > 0 {
        let m = (n - 1) as nat;
        lemma_repeat_len(t, m);
        assert(repeat(t, n) == repeat(t, m) + t);
        let l = t.len();
        assert(l * n == l * m + l) by (nonlinear_arith)
            requires
                n == m + 1,
        ;
    } else {
        assert(repeat(t, n) =~= Seq::<u8>::empty());
        assert(t.len() * n == 0) by (nonlinear_arith)
            requires
                n == 0,
        ;
    }
}

/// RLE90 never more than doubles its input: the escaped marker takes two
/// bytes per byte, a run three bytes for four or more, anything else one.
pub proof fn lemma_rle90_at_most_double(s: Seq<u8>)
    ensures
        spec_rle90(s).len() <= 2 * s.len(),
    decreases s.len(),
{
    if s.len() > 0 {
        lemma_run_len(s);
        let r = run_len(s);
        lemma_rle90_at_most_double(s.skip(r));
        lemma_repeat_len(seq![0x90u8, 0x00u8], r as nat);
        lemma_repeat_len(seq![s[0]], r as nat);
        let n = r as nat;
        if s[0] == 0x90 {
            let t = seq![0x90u8, 0x00u8];
            assert(t.len() * n == 2 * n) by (nonlinear_arith)
                requires
                    t.len() == 2,
            ;
        } else if r < 4 {
            let t = seq![s[0]];
            assert(t.len() * n == n) by (nonlinear_arith)
                requires
                    t.len() == 1,
            ;
        }
        assert(rle_token(s[0], r as nat).len() <= 2 * r);
        assert(spec_rle90(s) == rle_token(s[0], r as nat) + spec_rle90(s.skip(r)));
    }
}

// ----------------------------------------------------------- 6-bit code

/// The 24-bit value of a chunk of 1 to 3 bytes, zero-padded at the end.
pub open spec fn chunk_value(c: Seq<u8>) -> u32 {
    let b1: u8 = if c.len() > 1 {
        c[1]
    } else {
        0
    };
    let b2: u8 = if c.len() > 2 {
        c[2]
    } else {
        0
    };
    ((c[0] as u32) << 16u32) | ((b1 as u32) << 8u32) | (b2 as u32)
}

/// The `k`-th 6-bit group (from the top) of a 24-bit value.
pub open spec fn sextet(v: u32, k: int) -> u32 {
    (v >> ((18 - 6 * k) as u32)) & 0x3F
}

/// A chunk of 1 to 3 bytes as 2 to 4 alphabet characters.
pub open spec fn six_bit_chunk(c: Seq<u8>) -> Seq<u8> {
    Seq::new((c.len() + 1) as nat, |k: int| ALPHABET@[sextet(chunk_value(c), k) as int])
}

/// 6-bit encoding, three bytes at a time.
pub open spec fn spec_six_bit(s: Seq<u8>) -> Seq<u8>
    decreases s.len(),
{
    if s.len() == 0 {
        Seq::empty()
    } else if s.len() <= 3 {
        six_bit_chunk(s)
    } else {
        six_bit_chunk(s.take(3)) + spec_six_bit(s.skip(3))
    }
}

/// How many characters the 6-bit code of `n` bytes has: four for each
/// whole group of three bytes, and two or three for one or two bytes left.
pub open spec fn six_bit_len(n: nat) -> nat {
    4 * (n / 3) + if n % 3 == 0 {
        0nat
    } else if n % 3 == 1 {
        2nat
    } else {
        3nat
    }
}

/// The 6-bit code of `s` has `six_bit_len(s.len())` characters, each one
/// of the alphabet.
pub proof fn lemma_six_bit_shape(s: Seq<u8>)
    ensures
        spec_six_bit(s).len() == six_bit_len(s.len()),
        forall|i: int| 0 <= i < spec_six_bit(s).len() ==> exists|k: int|
            0 <= k < 64 && ALPHABET@[k] == #[trigger] spec_six_bit(s)[i],
    decreases s.len(),
{
    if s.len() > 0 {
        if s.len() <= 3 {
            let c = six_bit_chunk(s);
            assert forall|i: int| 0 <= i < c.len() implies exists|k: int|
                0 <= k < 64 && ALPHABET@[k] == #[trigger] c[i] by {
                let v: u32 = chunk_value(s);
                let sh: u32 = (18 - 6 * i) as u32;
                assert((v >> sh) & 0x3F < 64) by (bit_vector);
                let k = sextet(v, i) as int;
                assert(ALPHABET@[k] == c[i]);
            }
        } else {
            lemma_six_bit_shape(s.take(3));
            lemma_six_bit_shape(s.skip(3));
            let a = spec_six_bit(s.take(3));
            let b = spec_six_bit(s.skip(3));
            assert(spec_six_bit(s.take(3)) == six_bit_chunk(s.take(3)));
            assert(spec_six_bit(s) == a + b);
            assert(s.len() / 3 == (s.len() - 3) / 3 + 1);
            assert(s.len() % 3 == (s.len() - 3) % 3);
            assert forall|i: int| 0 <= i < spec_six_bit(s).len() implies exists|k: int|
                0 <= k < 64 && ALPHABET@[k] == #[trigger] spec_six_bit(s)[i] by {
                if i < a.len() {
                    assert(spec_six_bit(s)[i] == a[i]);
                } else {
                    assert(spec_six_bit(s)[i] == b[i - a.len()]);
                }
            }
        }
    }
}

/// 6-bit encode: 3 bytes -> 4 alphabet characters, zero-padded at the end.
fn six_bit(input: &[u8]) -> (out: Vec<u8>)
    ensures
        out@ == spec_six_bit(input@),
        out.len() == six_bit_len(input.len() as nat),
        forall|i: int| 0 <= i < out.len() ==> exists|k: int|
            0 <= k < 64 && ALPHABET@[k] == #[trigger] out@[i],
        unsix(out@) == input@,
{
    let mut out: Vec<u8> = Vec::new();
    let mut i: usize = 0;
    proof {
        assert(input@.skip(0) =~= input@);
    }
    while i < input.len()
        invariant
            i <= input.len(),
            out@ + spec_six_bit(input@.skip(i as int)) == spec_six_bit(input@),
        decreases input.len() - i,
    {
        let ghost rest = input@.skip(i as int);
        let len: usize = if input.len() - i < 3 {
            input.len() - i
        } else {
            3
        };
        let ghost chunk = rest.take(len as int);
        let b0 = input[i];
        let b1: u8 = if len > 1 {
            input[i + 1]
        } else {
            0
        };
        let b2: u8 = if len > 2 {
            input[i + 2]
        } else {
            0
        };
        let v = ((b0 as u32) << 16u32) | ((b1 as u32) << 8u32) | (b2 as u32);
        assert(v == chunk_value(chunk));
        let ghost before = out@;
        let nchars: u32 = len as u32 + 1;
        let mut k: u32 = 0;
        while k < nchars
            invariant
                nchars == chunk.len() + 1,
                v == chunk_value(chunk),
                k <= nchars <= 4,
                out@ =~= before + six_bit_chunk(chunk).take(k as int),
            decreases nchars - k,
        {
            let sh: u32 = 18 - 6 * k;
            let idx = (v >> sh) & 0x3F;
            assert(idx < 64) by (bit_vector)
                requires
                    idx == (v >> sh) & 0x3F,
            ;
            out.push(ALPHABET[idx as usize]);
            k += 1;
        }
        proof {
            if rest.len() <= 3 {
                assert(chunk =~= rest);
                assert(input@.skip(i + len) =~= Seq::<u8>::empty());
            } else {
                assert(rest.skip(3) =~= input@.skip(i + 3));
            }
            assert(six_bit_chunk(chunk).take(nchars as int) =~= six_bit_chunk(chunk));
            assert(spec_six_bit(rest) == six_bit_chunk(chunk) + spec_six_bit(input@.skip(i + len)));
            assert(out@ + spec_six_bit(input@.skip(i + len)) =~= before + spec_six_bit(rest));
        }
        i += len;
    }
    proof {
        assert(out@ + Seq::<u8>::empty() =~= out@);
        lemma_six_bit_shape(input@);
        lemma_six_bit_roundtrip(input@);
    }
    out
}

// ------------------------------------------------------------- the file

/// Length of the stored name: at most 63 bytes.
pub open spec fn bh_name_len(f: FileEntry) -> int {
    if f.raw_name@.len() < 63 {
        f.raw_name@.len() as int
    } else {
        63
    }
}

/// The header: name (length byte and bytes), version 0, type, creator,
/// Finder flags and the two fork lengths.
pub open spec fn bh_header(f: FileEntry, dlen: u32, rlen: u32) -> Seq<u8> {
    let n = bh_name_len(f);
    seq![n as u8] + f.raw_name@.take(n) + seq![0u8] + f.type_code@ + f.creator@ + be16_bytes(
        f.finder_flags,
    ) + be32_bytes(dlen) + be32_bytes(rlen)
}

/// `s` followed by its CRC-16/XMODEM, big-endian.
pub open spec fn with_crc(s: Seq<u8>) -> Seq<u8> {
    s + be16_bytes(spec_crc16(s, 0))
}

/// The stream before compression: header, data fork and resource fork,
/// each followed by its CRC.
pub open spec fn bh_stream(f: FileEntry, data: Seq<u8>, rsrc: Seq<u8>) -> Seq<u8> {
    with_crc(bh_header(f, data.len() as u32, rsrc.len() as u32)) + with_crc(data) + with_crc(rsrc)
}

/// `s` laid out in lines of 64 columns, the current line already holding
/// `col` characters; a line that ends up full is closed with a newline.
pub open spec fn wrap64(s: Seq<u8>, col: int) -> Seq<u8>
    decreases s.len(),
{
    if s.len() == 0 {
        if col == 64 {
            seq![0x0Au8]
        } else {
            Seq::empty()
        }
    } else if col == 64 {
        seq![0x0Au8, s[0]] + wrap64(s.drop_first(), 1)
    } else {
        seq![s[0]] + wrap64(s.drop_first(), col + 1)
    }
}

/// The characters of the encoded stream, before layout.
pub open spec fn bh_encoded(f: FileEntry, data: Seq<u8>, rsrc: Seq<u8>) -> Seq<u8> {
    spec_six_bit(spec_rle90(bh_stream(f, data, rsrc)))
}

/// A whole BinHex 4.0 file: the intro line, an empty line, then the
/// encoded stream between colons, in lines of at most 64 characters.
pub open spec fn binhex_text(f: FileEntry, data: Seq<u8>, rsrc: Seq<u8>) -> Seq<u8> {
    INTRO@ + seq![0x3Au8] + wrap64(bh_encoded(f, data, rsrc), 1) + seq![0x3Au8, 0x0Au8]
}

fn push_with_crc(out: &mut Vec<u8>, s: &[u8])
    ensures
        final(out)@ == old(out)@ + with_crc(s@),
{
    push_slice(out, s);
    let crc = crc16(s, 0);
    push_be16(out, crc);
    assert(out@ =~= old(out)@ + with_crc(s@));
}

/// Encodes a file as BinHex 4.0.
pub fn encode(f: &FileEntry, data: &[u8], rsrc: &[u8]) -> (out: Vec<u8>)
    ensures
        out@ == binhex_text(*f, data@, rsrc@),
{
    let mut s: Vec<u8> = Vec::new();
    let n: usize = if f.raw_name.len() < 63 {
        f.raw_name.len()
    } else {
        63
    };
    s.push(n as u8);
    let mut k: usize = 0;
    while k < n
        invariant
            n <= f.raw_name.len(),
            k <= n,
            s@ =~= seq![n as u8] + f.raw_name@.take(k as int),
        decreases n - k,
    {
        s.push(f.raw_name[k]);
        k += 1;
    }
    s.push(0);  // version
    push_slice(&mut s, &f.type_code);
    push_slice(&mut s, &f.creator);
    push_be16(&mut s, f.finder_flags);
    push_be32(&mut s, data.len() as u32);
    push_be32(&mut s, rsrc.len() as u32);
    assert(s@ =~= bh_header(*f, data.len() as u32, rsrc.len() as u32));
    let hcrc = crc16(s.as_slice(), 0);
    push_be16(&mut s, hcrc);
    push_with_crc(&mut s, data);
    push_with_crc(&mut s, rsrc);
    assert(s@ =~= bh_stream(*f, data@, rsrc@));

    let encoded = six_bit(rle90(s.as_slice()).as_slice());

    let mut out: Vec<u8> = Vec::new();
    push_slice(&mut out, &INTRO);
    let mut col: usize = 0;
    out.push(0x3A);  // ':'
    col += 1;
    let ghost head = out@;
    let mut i: usize = 0;
    proof {
        assert(encoded@.skip(0) =~= encoded@);
    }
    while i < encoded.len()
        invariant
            i <= encoded.len(),
            1 <= col <= 64,
            out@ + wrap64(encoded@.skip(i as int), col as int) == head + wrap64(encoded@, 1),
        decreases encoded.len() - i,
    {
        let ghost before = out@;
        let c = encoded[i];
        let ghost rest = encoded@.skip(i as int);
        assert(rest.drop_first() =~= encoded@.skip(i + 1));
        if col == 64 {
            out.push(0x0A);
            col = 0;
        }
        out.push(c);
        col += 1;
        assert(out@ + wrap64(encoded@.skip(i + 1), col as int) =~= before + wrap64(
            rest,
            if col == 1 { 64 } else { col - 1 },
        ));
        i += 1;
    }
    let ghost body = out@;
    if col == 64 {
        out.push(0x0A);
    }
    out.push(0x3A);
    out.push(0x0A);
    proof {
        assert(encoded@.skip(encoded.len() as int) =~= Seq::<u8>::empty());
        let w = wrap64(Seq::<u8>::empty(), col as int);
        assert(body + w == head + wrap64(encoded@, 1));
        assert(head =~= INTRO@ + seq![0x3Au8]);
        assert(encoded@ == bh_encoded(*f, data@, rsrc@));
        assert(out@ =~= body + w + seq![0x3Au8, 0x0Au8]);
        assert(out@ =~= binhex_text(*f, data@, rsrc@));
    }
    out
}

// ------------------------------------------------------- decoding RLE90

/// RLE90 decoding, appending to `acc`: `0x90 0x00` stands for a literal
/// 0x90, `0x90 n` (n > 0) for `n - 1` more copies of the byte before it,
/// and any other byte for itself.
pub open spec fn unrle(acc: Seq<u8>, t: Seq<u8>) -> Seq<u8>
    decreases t.len(),
{
    if t.len() == 0 {
        acc
    } else if t[0] == 0x90 && t.len() >= 2 {
        if t[1] == 0 {
            unrle(acc.push(0x90), t.skip(2))
        } else {
            unrle(acc + Seq::new((t[1] - 1) as nat, |_i: int| acc.last()), t.skip(2))
        }
    } else {
        unrle(acc.push(t[0]), t.skip(1))
    }
}

proof fn lemma_repeat_front(t: Seq<u8>, n: nat)
    requires
        n > 0,
    ensures
        repeat(t, n) == t + repeat(t, (n - 1) as nat),
    decreases n,
{
    if n > 1 {
        lemma_repeat_front(t, (n - 1) as nat);
        assert(t + repeat(t, (n - 2) as nat) + t =~= t + (repeat(t, (n - 2) as nat) + t));
    } else {
        assert(repeat(t, 0) + t =~= t + repeat(t, 0));
    }
}

/// `n` copies of the byte `b`.
pub open spec fn bytes_of(b: u8, n: nat) -> Seq<u8> {
    Seq::new(n, |_i: int| b)
}

proof fn lemma_unrle_repeat(acc: Seq<u8>, t: Seq<u8>, n: nat, rest: Seq<u8>, b: u8)
    requires
        (t == seq![0x90u8, 0x00u8] && b == 0x90) || (t == seq![b] && b != 0x90),
    ensures
        unrle(acc, repeat(t, n) + rest) == unrle(acc + bytes_of(b, n), rest),
    decreases n,
{
    if n == 0 {
        assert(repeat(t, 0) + rest =~= rest);
        assert(acc + bytes_of(b, 0) =~= acc);
    } else {
        lemma_repeat_front(t, n);
        let tail = repeat(t, (n - 1) as nat) + rest;
        assert(repeat(t, n) + rest =~= t + tail);
        let u = t + tail;
        if b == 0x90 {
            assert(u[0] == 0x90 && u[1] == 0);
            assert(u.skip(2) =~= tail);
        } else {
            assert(u[0] == b);
            assert(u.skip(1) =~= tail);
        }
        lemma_unrle_repeat(acc.push(b), t, (n - 1) as nat, rest, b);
        assert(acc.push(b) + bytes_of(b, (n - 1) as nat) =~= acc + bytes_of(b, n));
    }
}

proof fn lemma_unrle_token(acc: Seq<u8>, b: u8, n: nat, rest: Seq<u8>)
    requires
        1 <= n <= 255,
    ensures
        unrle(acc, rle_token(b, n) + rest) == unrle(acc + bytes_of(b, n), rest),
{
    if b == 0x90 {
        lemma_unrle_repeat(acc, seq![0x90u8, 0x00u8], n, rest, b);
    } else if n >= 4 {
        let u = seq![b, 0x90u8, n as u8] + rest;
        assert(u[0] == b);
        assert(u.skip(1) =~= seq![0x90u8, n as u8] + rest);
        let v = seq![0x90u8, n as u8] + rest;
        assert(v[0] == 0x90 && v[1] == n as u8);
        assert(v.skip(2) =~= rest);
        let a1 = acc.push(b);
        assert(a1.last() == b);
        assert(n as u8 == n);
        assert(unrle(acc, u) == unrle(a1, v));
        assert(unrle(a1, v) == unrle(a1 + Seq::new((n - 1) as nat, |_i: int| a1.last()), rest));
        assert(a1 + Seq::new((n - 1) as nat, |_i: int| a1.last()) =~= acc + bytes_of(b, n));
    } else {
        lemma_unrle_repeat(acc, seq![b], n, rest, b);
    }
}

/// RLE90 decoding gives back what was compressed.
pub proof fn lemma_rle90_roundtrip(acc: Seq<u8>, s: Seq<u8>)
    ensures
        unrle(acc, spec_rle90(s)) == acc + s,
    decreases s.len(),
{
    if s.len() == 0 {
        assert(acc + s =~= acc);
    } else {
        lemma_run_len(s);
        let r = run_len(s);
        let rest = s.skip(r);
        lemma_unrle_token(acc, s[0], r as nat, spec_rle90(rest));
        lemma_rle90_roundtrip(acc + bytes_of(s[0], r as nat), rest);
        assert(s =~= bytes_of(s[0], r as nat) + rest);
        assert(acc + bytes_of(s[0], r as nat) + rest =~= acc + s);
    }
}

// -------------------------------------------------- decoding the 6-bit code

/// The value of alphabet character `c`: its position in the alphabet.
pub open spec fn sextet_of(c: u8) -> int {
    choose|i: int| 0 <= i < 64 && ALPHABET@[i] == c
}

/// The bytes a chunk of 2 to 4 characters stands for: 1 to 3 bytes, the
/// top ones of the 24-bit value its characters spell out.
pub open spec fn unsix_chunk(t: Seq<u8>) -> Seq<u8> {
    let v = sextet_of(t[0]) * 262144 + sextet_of(t[1]) * 4096 + (if t.len() > 2 {
        sextet_of(t[2]) * 64
    } else {
        0
    }) + (if t.len() > 3 {
        sextet_of(t[3])
    } else {
        0
    });
    Seq::new(
        (t.len() - 1) as nat,
        |k: int|
            if k == 0 {
                (v / 65536) as u8
            } else if k == 1 {
                ((v / 256) % 256) as u8
            } else {
                (v % 256) as u8
            },
    )
}

/// 6-bit decoding, four characters at a time.
pub open spec fn unsix(t: Seq<u8>) -> Seq<u8>
    decreases t.len(),
{
    if t.len() == 0 {
        Seq::empty()
    } else if t.len() <= 4 {
        unsix_chunk(t)
    } else {
        unsix_chunk(t.take(4)) + unsix(t.skip(4))
    }
}

/// The alphabet is in increasing byte order, so no character occurs twice.
pub proof fn lemma_alphabet_increasing()
    ensures
        forall|i: int, j: int| 0 <= i < j < 64 ==> ALPHABET@[i] < ALPHABET@[j],
{
    assert forall|i: int, j: int| 0 <= i < j < 64 implies ALPHABET@[i] < ALPHABET@[j] by {
        lemma_alphabet_pair(i, j);
    }
}

proof fn lemma_alphabet_pair(i: int, j: int)
    requires
        0 <= i < j < 64,
    ensures
        ALPHABET@[i] < ALPHABET@[j],
{
    assert(forall|k: int| 0 <= k < 63 ==> ALPHABET@[k] < #[trigger] ALPHABET@[k + 1]);
    lemma_alphabet_step(i, j);
}

/// Every alphabet character is printable: none is below `!` (0x21).
proof fn lemma_alphabet_printable(k: int)
    requires
        0 <= k < 64,
    ensures
        ALPHABET@[k] >= 0x21,
{
    assert(ALPHABET@[0] == 0x21);
    if k > 0 {
        lemma_alphabet_pair(0, k);
    }
}

proof fn lemma_alphabet_step(i: int, j: int)
    requires
        0 <= i < j < 64,
        forall|k: int| 0 <= k < 63 ==> ALPHABET@[k] < #[trigger] ALPHABET@[k + 1],
    ensures
        ALPHABET@[i] < ALPHABET@[j],
    decreases j - i,
{
    if j > i + 1 {
        lemma_alphabet_step(i, j - 1);
        assert(ALPHABET@[j - 1] < ALPHABET@[(j - 1) + 1]);
    } else {
        assert(ALPHABET@[i] < ALPHABET@[i + 1]);
    }
}

/// Each alphabet character decodes to its own position.
pub proof fn lemma_sextet_of(x: int)
    requires
        0 <= x < 64,
    ensures
        sextet_of(ALPHABET@[x]) == x,
{
    let c = ALPHABET@[x];
    assert(0 <= x < 64 && ALPHABET@[x] == c);
    let y = sextet_of(c);
    if y < x {
        lemma_alphabet_pair(y, x);
    } else if y > x {
        lemma_alphabet_pair(x, y);
    }
}

proof fn lemma_chunk_bits(b0: u32, b1: u32, b2: u32)
    requires
        b0 < 256,
        b1 < 256,
        b2 < 256,
    ensures
        ({
            let v = (b0 << 16u32) | (b1 << 8u32) | b2;
            let s0 = (v >> 18u32) & 0x3F;
            let s1 = (v >> 12u32) & 0x3F;
            let s2 = (v >> 6u32) & 0x3F;
            let s3 = (v >> 0u32) & 0x3F;
            &&& s0 * 262144 + s1 * 4096 + s2 * 64 + s3 == b0 * 65536 + b1 * 256 + b2
            &&& b2 == 0 ==> s0 * 262144 + s1 * 4096 + s2 * 64 == b0 * 65536 + b1 * 256
            &&& b1 == 0 && b2 == 0 ==> s0 * 262144 + s1 * 4096 == b0 * 65536
        }),
{
    assert({
        let v = (b0 << 16u32) | (b1 << 8u32) | b2;
        let s0 = (v >> 18u32) & 0x3F;
        let s1 = (v >> 12u32) & 0x3F;
        let s2 = (v >> 6u32) & 0x3F;
        let s3 = (v >> 0u32) & 0x3F;
        &&& s0 * 262144 + s1 * 4096 + s2 * 64 + s3 == b0 * 65536 + b1 * 256 + b2
        &&& b2 == 0 ==> s0 * 262144 + s1 * 4096 + s2 * 64 == b0 * 65536 + b1 * 256
        &&& b1 == 0 && b2 == 0 ==> s0 * 262144 + s1 * 4096 == b0 * 65536
    }) by (bit_vector)
        requires
            b0 < 256,
            b1 < 256,
            b2 < 256,
    ;
}

proof fn lemma_sextet_range(v: u32, k: int)
    requires
        0 <= k < 4,
    ensures
        0 <= sextet(v, k) < 64,
{
    let s = (18 - 6 * k) as u32;
    assert((v >> s) & 0x3F < 64) by (bit_vector);
}

/// Decoding one chunk gives back its bytes.
proof fn lemma_unsix_chunk(c: Seq<u8>)
    requires
        1 <= c.len() <= 3,
    ensures
        unsix_chunk(six_bit_chunk(c)) == c,
{
    let t = six_bit_chunk(c);
    let b0 = c[0] as u32;
    let b1: u32 = if c.len() > 1 {
        c[1] as u32
    } else {
        0
    };
    let b2: u32 = if c.len() > 2 {
        c[2] as u32
    } else {
        0
    };
    let v = chunk_value(c);
    assert(v == (b0 << 16u32) | (b1 << 8u32) | b2);
    lemma_chunk_bits(b0, b1, b2);
    assert forall|k: int| 0 <= k < t.len() implies sextet_of(#[trigger] t[k]) == sextet(v, k) by {
        lemma_sextet_range(v, k);
        lemma_sextet_of(sextet(v, k) as int);
    }
    assert(sextet(v, 0) == (v >> 18u32) & 0x3F);
    assert(sextet(v, 1) == (v >> 12u32) & 0x3F);
    assert(sextet(v, 2) == (v >> 6u32) & 0x3F);
    assert(sextet(v, 3) == (v >> 0u32) & 0x3F);
    let w = b0 * 65536 + b1 * 256 + b2;
    assert(unsix_chunk(t) =~= c) by {
        assert(w / 65536 == b0);
        assert((w / 256) % 256 == b1);
        assert(w % 256 == b2);
    }
}

/// 6-bit decoding gives back what was encoded.
pub proof fn lemma_six_bit_roundtrip(s: Seq<u8>)
    ensures
        unsix(spec_six_bit(s)) == s,
    decreases s.len(),
{
    if s.len() == 0 {
    } else if s.len() <= 3 {
        lemma_unsix_chunk(s);
    } else {
        let head = six_bit_chunk(s.take(3));
        let tail = spec_six_bit(s.skip(3));
        lemma_six_bit_roundtrip(s.skip(3));
        lemma_unsix_chunk(s.take(3));
        let t = head + tail;
        assert(t.take(4) =~= head);
        assert(t.skip(4) =~= tail);
        if tail.len() == 0 {
            assert(s.skip(3).len() == 0);
        }
        assert(s =~= s.take(3) + s.skip(3));
    }
}

// ------------------------------------------------------------ the layout

/// Every line of `t` holds at most 64 characters, the current line
/// already holding `col`.
pub open spec fn lines_within(t: Seq<u8>, col: int) -> bool
    decreases t.len(),
{
    if t.len() == 0 {
        col <= 64
    } else if t[0] == 0x0A {
        col <= 64 && lines_within(t.drop_first(), 0)
    } else {
        col + 1 <= 64 && lines_within(t.drop_first(), col + 1)
    }
}

/// `t` without its newlines.
pub open spec fn drop_newlines(t: Seq<u8>) -> Seq<u8>
    decreases t.len(),
{
    if t.len() == 0 {
        t
    } else if t[0] == 0x0A {
        drop_newlines(t.drop_first())
    } else {
        seq![t[0]] + drop_newlines(t.drop_first())
    }
}

proof fn lemma_six_bit_no_newline(s: Seq<u8>)
    ensures
        forall|i: int| 0 <= i < spec_six_bit(s).len() ==> #[trigger] spec_six_bit(s)[i] != 0x0A,
{
    lemma_six_bit_shape(s);
    assert forall|i: int| 0 <= i < spec_six_bit(s).len() implies #[trigger] spec_six_bit(s)[i] != 0x0A by {
        let k = choose|k: int| 0 <= k < 64 && ALPHABET@[k] == spec_six_bit(s)[i];
        lemma_alphabet_printable(k);
    }
}

proof fn lemma_wrap64_text(s: Seq<u8>, col: int)
    requires
        1 <= col <= 64,
        forall|i: int| 0 <= i < s.len() ==> #[trigger] s[i] != 0x0A,
    ensures
        drop_newlines(wrap64(s, col)) == s,
    decreases s.len(),
{
    if s.len() == 0 {
        if col == 64 {
            let w = seq![0x0Au8];
            assert(w.drop_first() =~= Seq::<u8>::empty());
            assert(drop_newlines(w) == drop_newlines(w.drop_first()));
        }
    } else {
        let s1 = s.drop_first();
        assert forall|i: int| 0 <= i < s1.len() implies #[trigger] s1[i] != 0x0A by {
            assert(s1[i] == s[i + 1]);
        }
        let c2 = if col == 64 {
            1
        } else {
            col + 1
        };
        lemma_wrap64_text(s1, c2);
        let r = wrap64(s1, c2);
        let v = seq![s[0]] + r;
        assert(v[0] == s[0]);
        assert(v.drop_first() =~= r);
        assert(drop_newlines(v) == seq![s[0]] + drop_newlines(r));
        if col == 64 {
            let w = seq![0x0Au8, s[0]] + r;
            assert(wrap64(s, col) == w);
            assert(w.drop_first() =~= v);
            assert(drop_newlines(w) == drop_newlines(v));
        } else {
            assert(wrap64(s, col) == v);
        }
        assert(s =~= seq![s[0]] + s1);
    }
}

proof fn lemma_wrap64_lines(s: Seq<u8>, col: int)
    requires
        1 <= col <= 64,
        forall|i: int| 0 <= i < s.len() ==> #[trigger] s[i] != 0x0A,
    ensures
        lines_within(wrap64(s, col) + seq![0x3Au8, 0x0Au8], col),
    decreases s.len(),
{
    let tail = seq![0x3Au8, 0x0Au8];
    let nl = seq![0x0Au8];
    assert(tail.drop_first() =~= nl);
    assert(nl.drop_first() =~= Seq::<u8>::empty());
    assert(lines_within(Seq::<u8>::empty(), 0));
    assert(lines_within(nl, 1));
    assert(lines_within(tail, 0));
    if s.len() == 0 {
        if col == 64 {
            let u = nl + tail;
            assert(wrap64(s, col) + tail == u);
            assert(u.drop_first() =~= tail);
            assert(lines_within(u, col));
        } else {
            assert(wrap64(s, col) + tail =~= tail);
            assert(lines_within(nl, col + 1));
            assert(lines_within(tail, col));
        }
    } else {
        let s1 = s.drop_first();
        assert forall|i: int| 0 <= i < s1.len() implies #[trigger] s1[i] != 0x0A by {
            assert(s1[i] == s[i + 1]);
        }
        let c2 = if col == 64 {
            1
        } else {
            col + 1
        };
        lemma_wrap64_lines(s1, c2);
        let r = wrap64(s1, c2) + tail;
        let v = seq![s[0]] + r;
        assert(v[0] == s[0]);
        assert(v.drop_first() =~= r);
        if col == 64 {
            assert(lines_within(v, 0));
            let w = nl + v;
            assert(wrap64(s, col) + tail =~= w);
            assert(w.drop_first() =~= v);
            assert(lines_within(w, col));
        } else {
            assert(wrap64(s, col) + tail =~= v);
            assert(lines_within(v, col));
        }
    }
}

/// A BinHex file is the intro line, an empty line, and then lines of at
/// most 64 characters; between the colons, without the newlines, stands
/// the 6-bit code of the RLE90-compressed stream, so that decoding it
/// gives back header, forks and their CRCs.
pub proof fn lemma_binhex_decodes(f: FileEntry, data: Seq<u8>, rsrc: Seq<u8>)
    ensures
        ({
            let text = binhex_text(f, data, rsrc);
            let enc = bh_encoded(f, data, rsrc);
            &&& text == INTRO@ + seq![0x3Au8] + wrap64(enc, 1) + seq![0x3Au8, 0x0Au8]
            &&& lines_within(text.skip(INTRO@.len() as int), 0)
            &&& unrle(Seq::empty(), unsix(drop_newlines(wrap64(enc, 1)))) == bh_stream(
                f,
                data,
                rsrc,
            )
        }),
{
    let text = binhex_text(f, data, rsrc);
    let stream = bh_stream(f, data, rsrc);
    let enc = bh_encoded(f, data, rsrc);
    lemma_six_bit_no_newline(spec_rle90(stream));
    lemma_wrap64_text(enc, 1);
    lemma_wrap64_lines(enc, 1);
    lemma_six_bit_roundtrip(spec_rle90(stream));
    lemma_rle90_roundtrip(Seq::empty(), stream);
    assert(Seq::<u8>::empty() + stream =~= stream);
    let body = seq![0x3Au8] + wrap64(enc, 1) + seq![0x3Au8, 0x0Au8];
    assert(text.skip(INTRO@.len() as int) =~= body);
    assert(body.drop_first() =~= wrap64(enc, 1) + seq![0x3Au8, 0x0Au8]);
}

/// What a decoder reads from the stream a file is encoded as (the text
/// decodes to it: `lemma_binhex_decodes`). With `n` the length of the
/// stored name (the file's name, cut to 63 bytes): byte 0 is `n`, the
/// name follows, then version 0, the type, the creator, the Finder flags
/// high byte first, the data and resource fork lengths (big-endian), the
/// header CRC; then the data fork and its CRC, the resource fork and its
/// CRC, each CRC high byte first.
pub proof fn lemma_binhex_stream_layout(f: FileEntry, data: Seq<u8>, rsrc: Seq<u8>)
    requires
        data.len() < 0x1_0000_0000,
        rsrc.len() < 0x1_0000_0000,
    ensures
        ({
            let st = bh_stream(f, data, rsrc);
            let n: int = if f.raw_name@.len() < 63 { f.raw_name@.len() as int } else { 63 };
            let dl = data.len() as int;
            let rl = rsrc.len() as int;
            let hc = spec_crc16(st.take(n + 20), 0) as int;
            let dc = spec_crc16(data, 0) as int;
            let rc = spec_crc16(rsrc, 0) as int;
            &&& st.len() == n + 26 + dl + rl
            &&& st[0] == n
            &&& st.subrange(1, n + 1) == f.raw_name@.take(n)
            &&& st[n + 1] == 0
            &&& st.subrange(n + 2, n + 6) == f.type_code@
            &&& st.subrange(n + 6, n + 10) == f.creator@
            &&& st[n + 10] == f.finder_flags / 256
            &&& st[n + 11] == f.finder_flags % 256
            &&& st[n + 12] == dl / 16777216 && st[n + 13] == (dl / 65536) % 256
            &&& st[n + 14] == (dl / 256) % 256 && st[n + 15] == dl % 256
            &&& st[n + 16] == rl / 16777216 && st[n + 17] == (rl / 65536) % 256
            &&& st[n + 18] == (rl / 256) % 256 && st[n + 19] == rl % 256
            &&& st[n + 20] == hc / 256 && st[n + 21] == hc % 256
            &&& st.subrange(n + 22, n + 22 + dl) == data
            &&& st[n + 22 + dl] == dc / 256 && st[n + 23 + dl] == dc % 256
            &&& st.subrange(n + 24 + dl, n + 24 + dl + rl) == rsrc
            &&& st[n + 24 + dl + rl] == rc / 256 && st[n + 25 + dl + rl] == rc % 256
        }),
{
    let st = bh_stream(f, data, rsrc);
    let n = bh_name_len(f);
    let dl = data.len() as int;
    let rl = rsrc.len() as int;
    let h = bh_header(f, data.len() as u32, rsrc.len() as u32);
    let hh = with_crc(h);
    let dd = with_crc(data);
    let rr = with_crc(rsrc);
    assert(h.len() == n + 20);
    assert(st == hh + dd + rr);
    assert(st.take(n + 20) =~= h);
    assert(st.subrange(1, n + 1) =~= f.raw_name@.take(n));
    assert(st.subrange(n + 2, n + 6) =~= f.type_code@);
    assert(st.subrange(n + 6, n + 10) =~= f.creator@);
    assert(st.subrange(n + 22, n + 22 + dl) =~= data);
    assert(st.subrange(n + 24 + dl, n + 24 + dl + rl) =~= rsrc);
    assert(st[n + 22 + dl] == dd[dl]);
    assert(st[n + 23 + dl] == dd[dl + 1]);
    assert(st[n + 24 + dl + rl] == rr[rl]);
    assert(st[n + 25 + dl + rl] == rr[rl + 1]);
    assert((data.len() as u32) as int == dl);
    assert((rsrc.len() as u32) as int == rl);
}

proof fn lemma_wrap64_newline_positions(s: Seq<u8>, col: int)
    requires
        1 <= col <= 64,
        forall|i: int| 0 <= i < s.len() ==> #[trigger] s[i] != 0x0A,
    ensures
        forall|j: int|
            0 <= j < wrap64(s, col).len() ==> (#[trigger] wrap64(s, col)[j] == 0x0A <==> (col + j) % 65
                == 64),
    decreases s.len(),
{
    let w = wrap64(s, col);
    if s.len() == 0 {
    } else if col == 64 {
        let rest = s.drop_first();
        lemma_wrap64_newline_positions(rest, 1);
        let wr = wrap64(rest, 1);
        assert(w == seq![0x0Au8, s[0]] + wr);
        assert forall|j: int| 0 <= j < w.len() implies (#[trigger] w[j] == 0x0A <==> (col + j) % 65
            == 64) by {
            if j >= 2 {
                assert(w[j] == wr[j - 2]);
                assert((1 + (j - 2)) % 65 == (64 + j) % 65);
            } else if j == 1 {
                assert(w[1] == s[0]);
            }
        }
    } else {
        let rest = s.drop_first();
        lemma_wrap64_newline_positions(rest, col + 1);
        let wr = wrap64(rest, col + 1);
        assert(w == seq![s[0]] + wr);
        assert forall|j: int| 0 <= j < w.len() implies (#[trigger] w[j] == 0x0A <==> (col + j) % 65
            == 64) by {
            if j >= 1 {
                assert(w[j] == wr[j - 1]);
                assert((col + 1 + (j - 1)) == col + j);
            } else {
                assert(w[0] == s[0]);
            }
        }
    }
}

/// A BinHex file is laid out in full lines: after the intro text and the
/// empty line, the block from the opening colon on has a newline at
/// exactly every 65th position (so each line but the last holds 64
/// characters), and the file ends with the closing colon and a newline.
pub proof fn lemma_binhex_full_lines(f: FileEntry, data: Seq<u8>, rsrc: Seq<u8>)
    ensures
        ({
            let text = binhex_text(f, data, rsrc);
            let n = text.len();
            &&& n >= 50
            &&& text.take(47) == INTRO@
            &&& text[47] == 0x3A
            &&& text[n - 2] == 0x3A && text[n - 1] == 0x0A
            &&& forall|i: int|
                47 <= i < n - 2 ==> (#[trigger] text[i] == 0x0A <==> (i - 47) % 65 == 64)
        }),
{
    let text = binhex_text(f, data, rsrc);
    let enc = bh_encoded(f, data, rsrc);
    lemma_six_bit_no_newline(spec_rle90(bh_stream(f, data, rsrc)));
    lemma_wrap64_newline_positions(enc, 1);
    let w = wrap64(enc, 1);
    assert(INTRO@.len() == 47);
    assert(text == INTRO@ + seq![0x3Au8] + w + seq![0x3Au8, 0x0Au8]);
    assert(text.take(47) =~= INTRO@);
    let n = text.len();
    assert forall|i: int| 47 <= i < n - 2 implies (#[trigger] text[i] == 0x0A <==> (i - 47) % 65
        == 64) by {
        if i >= 48 {
            assert(text[i] == w[i - 48]);
            assert(1 + (i - 48) == i - 47);
        }
    }
}

} // verus!
