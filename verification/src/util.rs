//! Shared helpers: CRC-16, MacRoman decoding, Mac dates, glob matching.

use vstd::prelude::*;
use crate::bytes::be16_bytes;
use crate::calendar::{
    civil_from_days, date_of_day, lemma_date_of_day_valid, lemma_year_nonneg, lemma_year_range,
};
use crate::text::{
    chars_of, chars_start_with, decimal, is_prefix, lowercase, pad_left, push_decimal,
};
use crate::glob::{
    glob_at, glob_match, lemma_glob_unfold, lemma_next_star, lemma_skip_stars, lemma_star_at_end,
    lemma_star_retry, literal_run,
};

verus! {

/// One bit step of CRC-16/XMODEM (polynomial 0x1021, MSB first).
pub open spec fn crc16_bit(c: u16) -> u16 {
    if c & 0x8000 != 0 {
        ((c << 1u16) ^ 0x1021u16) as u16
    } else {
        (c << 1u16) as u16
    }
}

/// `n` bit steps.
pub open spec fn crc16_bits(c: u16, n: nat) -> u16
    decreases n,
{
    if n == 0 {
        c
    } else {
        crc16_bits(crc16_bit(c), (n - 1) as nat)
    }
}

/// Feeding one byte: xor it into the high half, then eight bit steps.
pub open spec fn crc16_byte(c: u16, b: u8) -> u16 {
    crc16_bits(c ^ ((b as u16) << 8u16) as u16, 8)
}

/// CRC-16/XMODEM of `data` starting from `init`, bytes fed first to last.
pub open spec fn spec_crc16(data: Seq<u8>, init: u16) -> u16
    decreases data.len(),
{
    if data.len() == 0 {
        init
    } else {
        crc16_byte(spec_crc16(data.drop_last(), init), data.last())
    }
}

/// CRC-16/XMODEM (poly 0x1021, MSB-first). Used by both MacBinary II
/// (init 0) and BinHex 4.0 (init 0).
pub fn crc16(data: &[u8], init: u16) -> (crc: u16)
    ensures
        crc == spec_crc16(data@, init),
{
    let mut crc = init;
    let mut i: usize = 0;
    while i < data.len()
        invariant
            i <= data.len(),
            crc == spec_crc16(data@.take(i as int), init),
        decreases data.len() - i,
    {
        let b = data[i];
        crc ^= (b as u16) << 8u16;
        let ghost start = crc;
        let mut k: u32 = 0;
        while k < 8
            invariant
                k <= 8,
                crc16_bits(crc, (8 - k) as nat) == crc16_bits(start, 8),
            decreases 8 - k,
        {
            crc = if crc & 0x8000 != 0 {
                (crc << 1u16) ^ 0x1021
            } else {
                crc << 1u16
            };
            k += 1;
        }
        assert(data@.take(i + 1).drop_last() =~= data@.take(i as int));
        i += 1;
    }
    assert(data@.take(data.len() as int) =~= data@);
    crc
}

} // verus!

verus! {

/// Matches `p` against all of `s`: `*` takes any run of characters (also
/// none, also `*` characters), `?` exactly one, any other character
/// itself. Walks the text once, going back only to the most recent `*`.
pub fn glob_chars(p: &[char], s: &[char]) -> (r: bool)
    ensures
        r == glob_match(p@, s@),
{
    let ghost ps = p@;
    let ghost ss = s@;
    let mut pi: usize = 0;
    let mut si: usize = 0;
    let mut star: Option<usize> = None;
    let mut mark: usize = 0;
    proof {
        assert(ps.skip(0) =~= ps);
        assert(ss.skip(0) =~= ss);
    }
    while si < s.len()
        invariant
            ps == p@,
            ss == s@,
            pi <= p.len(),
            mark <= si <= s.len(),
            match star {
                None => glob_match(ps, ss) == glob_at(ps, ss, pi as int, si as int),
                Some(sp) => {
                    &&& sp < pi
                    &&& p@[sp as int] == '*'
                    &&& si - mark == pi - sp - 1
                    &&& literal_run(ps, ss, sp + 1, pi as int, mark as int)
                    &&& glob_match(ps, ss) == glob_at(ps, ss, sp as int, mark as int)
                },
            },
        decreases s.len() - mark, s.len() - si, p.len() - pi,
    {
        if pi < p.len() && p[pi] == '*' {
            proof {
                match star {
                    None => {},
                    Some(sp) => {
                        lemma_next_star(ps, ss, sp as int, pi as int, mark as int);
                    },
                }
            }
            star = Some(pi);
            mark = si;
            pi += 1;
        } else if pi < p.len() && (p[pi] == '?' || p[pi] == s[si]) {
            proof {
                match star {
                    None => {
                        lemma_glob_unfold(ps, ss, pi as int, si as int);
                    },
                    Some(sp) => {},
                }
            }
            pi += 1;
            si += 1;
        } else if let Some(sp) = star {
            proof {
                lemma_glob_unfold(ps, ss, pi as int, si as int);
                lemma_star_retry(ps, ss, sp as int, pi as int, mark as int);
                assert(literal_run(ps, ss, sp + 1, sp + 1, mark + 1));
            }
            pi = sp + 1;
            mark += 1;
            si = mark;
        } else {
            proof {
                lemma_glob_unfold(ps, ss, pi as int, si as int);
            }
            return false;
        }
    }
    proof {
        match star {
            None => {},
            Some(sp) => {
                lemma_star_at_end(ps, ss, sp as int, pi as int, mark as int);
            },
        }
    }
    let ghost pi0 = pi;
    while pi < p.len() && p[pi] == '*'
        invariant
            ps == p@,
            pi0 <= pi <= p.len(),
            forall|k: int| pi0 <= k < pi ==> ps[k] == '*',
        decreases p.len() - pi,
    {
        pi += 1;
    }
    proof {
        lemma_skip_stars(ps, ss, pi0 as int, pi as int);
        lemma_glob_unfold(ps, ss, pi as int, ss.len() as int);
    }
    pi == p.len()
}

} // verus!

verus! {

/// MacRoman 0x80..=0xFF to Unicode.
pub const MACROMAN_HIGH: [char; 128] = [
    '\u{00C4}', '\u{00C5}', '\u{00C7}', '\u{00C9}', '\u{00D1}', '\u{00D6}', '\u{00DC}', '\u{00E1}',
    '\u{00E0}', '\u{00E2}', '\u{00E4}', '\u{00E3}', '\u{00E5}', '\u{00E7}', '\u{00E9}', '\u{00E8}',
    '\u{00EA}', '\u{00EB}', '\u{00ED}', '\u{00EC}', '\u{00EE}', '\u{00EF}', '\u{00F1}', '\u{00F3}',
    '\u{00F2}', '\u{00F4}', '\u{00F6}', '\u{00F5}', '\u{00FA}', '\u{00F9}', '\u{00FB}', '\u{00FC}',
    '\u{2020}', '\u{00B0}', '\u{00A2}', '\u{00A3}', '\u{00A7}', '\u{2022}', '\u{00B6}', '\u{00DF}',
    '\u{00AE}', '\u{00A9}', '\u{2122}', '\u{00B4}', '\u{00A8}', '\u{2260}', '\u{00C6}', '\u{00D8}',
    '\u{221E}', '\u{00B1}', '\u{2264}', '\u{2265}', '\u{00A5}', '\u{00B5}', '\u{2202}', '\u{2211}',
    '\u{220F}', '\u{03C0}', '\u{222B}', '\u{00AA}', '\u{00BA}', '\u{03A9}', '\u{00E6}', '\u{00F8}',
    '\u{00BF}', '\u{00A1}', '\u{00AC}', '\u{221A}', '\u{0192}', '\u{2248}', '\u{2206}', '\u{00AB}',
    '\u{00BB}', '\u{2026}', '\u{00A0}', '\u{00C0}', '\u{00C3}', '\u{00D5}', '\u{0152}', '\u{0153}',
    '\u{2013}', '\u{2014}', '\u{201C}', '\u{201D}', '\u{2018}', '\u{2019}', '\u{00F7}', '\u{25CA}',
    '\u{00FF}', '\u{0178}', '\u{2044}', '\u{20AC}', '\u{2039}', '\u{203A}', '\u{FB01}', '\u{FB02}',
    '\u{2021}', '\u{00B7}', '\u{201A}', '\u{201E}', '\u{2030}', '\u{00C2}', '\u{00CA}', '\u{00C1}',
    '\u{00CB}', '\u{00C8}', '\u{00CD}', '\u{00CE}', '\u{00CF}', '\u{00CC}', '\u{00D3}', '\u{00D4}',
    '\u{F8FF}', '\u{00D2}', '\u{00DA}', '\u{00DB}', '\u{00D9}', '\u{0131}', '\u{02C6}', '\u{02DC}',
    '\u{00AF}', '\u{02D8}', '\u{02D9}', '\u{02DA}', '\u{00B8}', '\u{02DD}', '\u{02DB}', '\u{02C7}',
];

/// The Unicode character for MacRoman byte `b`.
pub open spec fn macroman_char(b: u8) -> char {
    if b < 0x80 {
        b as char
    } else {
        MACROMAN_HIGH@[b - 0x80]
    }
}

/// The Unicode text for MacRoman bytes `bytes`, one character per byte.
pub open spec fn macroman_text(bytes: Seq<u8>) -> Seq<char> {
    bytes.map_values(|b: u8| macroman_char(b))
}

fn macroman_exec(b: u8) -> (c: char)
    ensures
        c == macroman_char(b),
{
    if b < 0x80 {
        b as char
    } else {
        MACROMAN_HIGH[(b - 0x80) as usize]
    }
}

/// Decodes MacRoman bytes to a string, byte by byte.
pub fn decode_macroman(bytes: &[u8]) -> (s: String)
    ensures
        s@ == macroman_text(bytes@),
{
    let mut s = String::new();
    let mut i: usize = 0;
    while i < bytes.len()
        invariant
            i <= bytes.len(),
            s@ =~= macroman_text(bytes@.take(i as int)),
        decreases bytes.len() - i,
    {
        s.push(macroman_exec(bytes[i]));
        i += 1;
    }
    assert(bytes@.take(bytes.len() as int) =~= bytes@);
    s
}

/// How a type/creator code byte is shown: control characters and DEL as
/// spaces, everything else as its MacRoman character.
pub open spec fn fourcc_char(b: u8) -> char {
    if b < 0x20 || b == 0x7F {
        ' '
    } else {
        macroman_char(b)
    }
}

/// Render a 4-byte type/creator code, with unprintable bytes as spaces.
pub fn fourcc(code: &[u8; 4]) -> (s: String)
    ensures
        s@ == code@.map_values(|b: u8| fourcc_char(b)),
{
    let mut s = String::new();
    let mut i: usize = 0;
    while i < 4
        invariant
            i <= 4,
            s@ =~= code@.take(i as int).map_values(|b: u8| fourcc_char(b)),
        decreases 4 - i,
    {
        let b = code[i];
        let c = if b < 0x20 || b == 0x7F {
            ' '
        } else {
            macroman_exec(b)
        };
        s.push(c);
        i += 1;
    }
    assert(code@.take(4) =~= code@);
    s
}

/// Lower-case hexadecimal digit for `n < 16`.
pub open spec fn hex_digit(n: u32) -> char {
    if n < 10 {
        (('0' as u32) + n) as char
    } else {
        (('a' as u32) + n - 10) as char
    }
}

/// Characters that may not stand in a Unix file name as they are.
pub open spec fn needs_escape(c: char) -> bool {
    c == '/' || (c as u32) < 0x20 || (c as u32) == 0x7F || c == '%'
}

/// One character of a name made safe for Unix: `%` and two lower-case hex
/// digits of its (single-byte) code where it needs escaping.
pub open spec fn sanitize_char(c: char) -> Seq<char> {
    if needs_escape(c) {
        seq!['%', hex_digit((c as u32) / 16), hex_digit((c as u32) % 16)]
    } else {
        seq![c]
    }
}

/// A whole name made safe for Unix, character by character.
pub open spec fn sanitize_text(s: Seq<char>) -> Seq<char>
    decreases s.len(),
{
    if s.len() == 0 {
        Seq::empty()
    } else {
        sanitize_text(s.drop_last()) + sanitize_char(s.last())
    }
}

fn hex_digit_exec(n: u32) -> (c: char)
    requires
        n < 16,
    ensures
        c == hex_digit(n),
{
    if n < 10 {
        ((('0' as u32) + n) as u8) as char
    } else {
        ((('a' as u32) + n - 10) as u8) as char
    }
}

/// Make an MFS filename safe as a Unix filename: '/' and control
/// characters are percent-encoded (hfsutils convention).
pub fn sanitize_unix_name(name: &str) -> (out: String)
    ensures
        out@ == sanitize_text(name@),
{
    let cs = chars_of(name);
    let mut out = String::new();
    let mut i: usize = 0;
    while i < cs.len()
        invariant
            i <= cs.len(),
            cs@ == name@,
            out@ == sanitize_text(cs@.take(i as int)),
        decreases cs.len() - i,
    {
        let c = cs[i];
        let ghost before = out@;
        if c == '/' || (c as u32) < 0x20 || (c as u32) == 0x7F || c == '%' {
            let code = c as u32;
            out.push('%');
            out.push(hex_digit_exec(code / 16));
            out.push(hex_digit_exec(code % 16));
        } else {
            out.push(c);
        }
        assert(cs@.take(i + 1).drop_last() =~= cs@.take(i as int));
        assert(out@ =~= before + sanitize_char(c));
        i += 1;
    }
    assert(cs@.take(cs.len() as int) =~= cs@);
    out
}

/// Case-insensitive glob match supporting `*` and `?` (MFS names are
/// case-insensitive): both sides are lower-cased, then matched.
pub fn glob_match_ci(pattern: &str, name: &str) -> (r: bool)
    ensures
        r == glob_match(lowercase(pattern@), lowercase(name@)),
{
    let pl = pattern.to_lowercase();
    let nl = name.to_lowercase();
    let p = chars_of(pl.as_str());
    let s = chars_of(nl.as_str());
    glob_chars(p.as_slice(), s.as_slice())
}

/// Case-insensitive equality: the lower-cased strings are equal.
pub fn eq_ci(a: &str, b: &str) -> (r: bool)
    ensures
        r == (lowercase(a@) == lowercase(b@)),
{
    a.to_lowercase() == b.to_lowercase()
}

/// Case-insensitive prefix test: lower-cased `prefix` begins lower-cased `s`.
pub fn starts_with_ci(s: &str, prefix: &str) -> (r: bool)
    ensures
        r == is_prefix(lowercase(prefix@), lowercase(s@)),
{
    let sl = s.to_lowercase();
    let pl = prefix.to_lowercase();
    let sc = chars_of(sl.as_str());
    let pc = chars_of(pl.as_str());
    chars_start_with(sc.as_slice(), pc.as_slice())
}

} // verus!

verus! {

/// Seconds between 1904-01-01 and 1970-01-01 (Mac vs. Unix epoch).
pub const MAC_EPOCH_OFFSET: i64 = 2_082_844_800;

/// Three-letter English weekday name; day 0 of the Unix epoch (index 0)
/// was a Thursday.
pub open spec fn weekday_name(i: int) -> Seq<char> {
    if i == 0 {
        seq!['T', 'h', 'u']
    } else if i == 1 {
        seq!['F', 'r', 'i']
    } else if i == 2 {
        seq!['S', 'a', 't']
    } else if i == 3 {
        seq!['S', 'u', 'n']
    } else if i == 4 {
        seq!['M', 'o', 'n']
    } else if i == 5 {
        seq!['T', 'u', 'e']
    } else {
        seq!['W', 'e', 'd']
    }
}

/// Three-letter English month name, 1 = January.
pub open spec fn month_name(m: int) -> Seq<char> {
    if m == 1 {
        seq!['J', 'a', 'n']
    } else if m == 2 {
        seq!['F', 'e', 'b']
    } else if m == 3 {
        seq!['M', 'a', 'r']
    } else if m == 4 {
        seq!['A', 'p', 'r']
    } else if m == 5 {
        seq!['M', 'a', 'y']
    } else if m == 6 {
        seq!['J', 'u', 'n']
    } else if m == 7 {
        seq!['J', 'u', 'l']
    } else if m == 8 {
        seq!['A', 'u', 'g']
    } else if m == 9 {
        seq!['S', 'e', 'p']
    } else if m == 10 {
        seq!['O', 'c', 't']
    } else if m == 11 {
        seq!['N', 'o', 'v']
    } else {
        seq!['D', 'e', 'c']
    }
}

/// Seconds since the Unix epoch of Mac time `mac_secs`.
pub open spec fn unix_secs(mac_secs: u32) -> int {
    mac_secs - MAC_EPOCH_OFFSET
}

/// The Unix day number of Mac time `mac_secs`.
pub open spec fn unix_day(mac_secs: u32) -> int {
    unix_secs(mac_secs) / 86400
}

/// Seconds into its day of Mac time `mac_secs`.
pub open spec fn secs_of_day(mac_secs: u32) -> int {
    unix_secs(mac_secs) % 86400
}

/// A number in two digits with a leading zero.
pub open spec fn two_digits(n: int) -> Seq<char> {
    pad_left(decimal(n as nat), 2, '0')
}

/// "Thu May 17 11:16:45 1984", or "(never)" for time 0.
pub open spec fn date_long_text(mac_secs: u32) -> Seq<char> {
    if mac_secs == 0 {
        seq!['(', 'n', 'e', 'v', 'e', 'r', ')']
    } else {
        let date = date_of_day(unix_day(mac_secs));
        let rem = secs_of_day(mac_secs);
        weekday_name(unix_day(mac_secs) % 7) + seq![' '] + month_name(date.1) + seq![' ']
            + pad_left(decimal(date.2 as nat), 2, ' ') + seq![' '] + two_digits(rem / 3600)
            + seq![':'] + two_digits((rem % 3600) / 60) + seq![':'] + two_digits(rem % 60) + seq![
            ' ',
        ] + decimal(date.0 as nat)
    }
}

/// "May 17 1984 11:16", or 17 spaces for time 0.
pub open spec fn date_short_text(mac_secs: u32) -> Seq<char> {
    if mac_secs == 0 {
        Seq::new(17, |_i: int| ' ')
    } else {
        let date = date_of_day(unix_day(mac_secs));
        let rem = secs_of_day(mac_secs);
        month_name(date.1) + seq![' '] + pad_left(decimal(date.2 as nat), 2, ' ') + seq![' ']
            + pad_left(decimal(date.0 as nat), 4, ' ') + seq![' '] + two_digits(rem / 3600)
            + seq![':'] + two_digits((rem % 3600) / 60)
    }
}

proof fn lemma_day_split(x: int)
    requires
        0 <= x,
    ensures
        (x - 2_082_844_800) / 86400 == x / 86400 - 24107,
        (x - 2_082_844_800) % 86400 == x % 86400,
        ((x - 2_082_844_800) / 86400) % 7 == (x / 86400 + 1) % 7,
{
    let q = x / 86400;
    let r = x % 86400;
    assert(x - 2_082_844_800 == 86400 * (q - 24107) + r);
    vstd::arithmetic::div_mod::lemma_fundamental_div_mod_converse(
        x - 2_082_844_800,
        86400,
        q - 24107,
        r,
    );
    assert((q - 24107) == (q + 1) + 7 * (-3444));
    vstd::arithmetic::div_mod::lemma_mod_multiples_vanish(-3444, q + 1, 7);
}

/// Calendar parts of Mac time `mac_secs`: year, month, day, hours,
/// minutes, seconds and weekday index (0 = Thursday).
fn parts(mac_secs: u32) -> (r: (i64, u32, u32, i64, i64, i64, usize))
    ensures
        date_of_day(unix_day(mac_secs)) == (r.0 as int, r.1 as int, r.2 as int),
        r.0 >= 0,
        1 <= r.1 <= 12,
        1 <= r.2 <= 31,
        r.3 == secs_of_day(mac_secs) / 3600,
        r.4 == (secs_of_day(mac_secs) % 3600) / 60,
        r.5 == secs_of_day(mac_secs) % 60,
        r.6 == unix_day(mac_secs) % 7,
{
    let q = mac_secs / 86_400;
    let days = q as i64 - 24_107;
    let rem = (mac_secs % 86_400) as i64;
    proof {
        lemma_day_split(mac_secs as int);
    }
    assert(days == unix_day(mac_secs) && rem == secs_of_day(mac_secs));
    let (y, m, d) = civil_from_days(days);
    proof {
        lemma_year_nonneg(y as int, m as int, d as int);
    }
    let wd = ((q + 1) % 7) as usize;
    (y, m, d, rem / 3600, (rem % 3600) / 60, rem % 60, wd)
}

fn push3(out: &mut String, a: char, b: char, c: char)
    ensures
        final(out)@ == old(out)@ + seq![a, b, c],
{
    out.push(a);
    out.push(b);
    out.push(c);
    assert(out@ =~= old(out)@ + seq![a, b, c]);
}

fn push_weekday(out: &mut String, i: usize)
    requires
        i < 7,
    ensures
        final(out)@ == old(out)@ + weekday_name(i as int),
{
    match i {
        0 => push3(out, 'T', 'h', 'u'),
        1 => push3(out, 'F', 'r', 'i'),
        2 => push3(out, 'S', 'a', 't'),
        3 => push3(out, 'S', 'u', 'n'),
        4 => push3(out, 'M', 'o', 'n'),
        5 => push3(out, 'T', 'u', 'e'),
        _ => push3(out, 'W', 'e', 'd'),
    }
}

fn push_month(out: &mut String, m: u32)
    requires
        1 <= m <= 12,
    ensures
        final(out)@ == old(out)@ + month_name(m as int),
{
    match m {
        1 => push3(out, 'J', 'a', 'n'),
        2 => push3(out, 'F', 'e', 'b'),
        3 => push3(out, 'M', 'a', 'r'),
        4 => push3(out, 'A', 'p', 'r'),
        5 => push3(out, 'M', 'a', 'y'),
        6 => push3(out, 'J', 'u', 'n'),
        7 => push3(out, 'J', 'u', 'l'),
        8 => push3(out, 'A', 'u', 'g'),
        9 => push3(out, 'S', 'e', 'p'),
        10 => push3(out, 'O', 'c', 't'),
        11 => push3(out, 'N', 'o', 'v'),
        _ => push3(out, 'D', 'e', 'c'),
    }
}

/// "Thu May 17 11:16:45 1984" (hmount style).
pub fn mac_date_long(mac_secs: u32) -> (s: String)
    ensures
        s@ == date_long_text(mac_secs),
{
    let mut s = String::new();
    if mac_secs == 0 {
        s.push('(');
        s.push('n');
        s.push('e');
        s.push('v');
        s.push('e');
        s.push('r');
        s.push(')');
        assert(s@ =~= date_long_text(mac_secs));
        return s;
    }
    let (y, m, d, hh, mm, ss, wd) = parts(mac_secs);
    push_weekday(&mut s, wd);
    s.push(' ');
    push_month(&mut s, m);
    s.push(' ');
    push_decimal(&mut s, d as u64, 2, ' ');
    s.push(' ');
    push_decimal(&mut s, hh as u64, 2, '0');
    s.push(':');
    push_decimal(&mut s, mm as u64, 2, '0');
    s.push(':');
    push_decimal(&mut s, ss as u64, 2, '0');
    s.push(' ');
    push_decimal(&mut s, y as u64, 0, ' ');
    assert(s@ =~= date_long_text(mac_secs));
    s
}

/// "May 17 1984 11:16" (mfsls -l style, fixed width).
pub fn mac_date_short(mac_secs: u32) -> (s: String)
    ensures
        s@ == date_short_text(mac_secs),
{
    let mut s = String::new();
    if mac_secs == 0 {
        let mut k: usize = 0;
        while k < 17
            invariant
                k <= 17,
                s@ =~= Seq::new(k as nat, |_i: int| ' '),
            decreases 17 - k,
        {
            s.push(' ');
            k += 1;
        }
        return s;
    }
    let (y, m, d, hh, mm, _, _) = parts(mac_secs);
    push_month(&mut s, m);
    s.push(' ');
    push_decimal(&mut s, d as u64, 2, ' ');
    s.push(' ');
    push_decimal(&mut s, y as u64, 4, ' ');
    s.push(' ');
    push_decimal(&mut s, hh as u64, 2, '0');
    s.push(':');
    push_decimal(&mut s, mm as u64, 2, '0');
    assert(s@ =~= date_short_text(mac_secs));
    s
}

} // verus!

verus! {

proof fn lemma_hex_digit_safe(n: u32)
    requires
        n < 16,
    ensures
        !needs_escape(hex_digit(n)),
{
    let x: u32 = if n < 10 {
        (48 + n) as u32
    } else {
        (97 + n - 10) as u32
    };
    assert(('0' as u32) == 48 && ('a' as u32) == 97);
    assert(hex_digit(n) == x as char);
}

/// A sanitised name holds no `/`, no control character and no DEL.
pub proof fn lemma_sanitized_is_safe(s: Seq<char>)
    ensures
        forall|i: int|
            0 <= i < sanitize_text(s).len() ==> {
                let c = #[trigger] sanitize_text(s)[i];
                c != '/' && (c as u32) >= 0x20 && (c as u32) != 0x7F
            },
    decreases s.len(),
{
    if s.len() > 0 {
        lemma_sanitized_is_safe(s.drop_last());
        let c = s.last();
        if needs_escape(c) {
            assert((c as u32) / 16 < 16 && (c as u32) % 16 < 16) by {
                assert((c as u32) < 0x80);
            }
            lemma_hex_digit_safe((c as u32) / 16);
            lemma_hex_digit_safe((c as u32) % 16);
        }
        let a = sanitize_text(s.drop_last());
        let b = sanitize_char(c);
        assert(sanitize_text(s) == a + b);
        assert forall|i: int| 0 <= i < sanitize_text(s).len() implies {
            let d = #[trigger] sanitize_text(s)[i];
            d != '/' && (d as u32) >= 0x20 && (d as u32) != 0x7F
        } by {
            if i >= a.len() {
                assert(sanitize_text(s)[i] == b[i - a.len()]);
            } else {
                assert(sanitize_text(s)[i] == a[i]);
            }
        }
    }
}

} // verus!

verus! {

/// Different MacRoman bytes decode to different characters.
pub proof fn lemma_macroman_char_injective(a: u8, b: u8)
    requires
        a != b,
    ensures
        macroman_char(a) != macroman_char(b),
{
    if a >= 0x80 && b >= 0x80 {
        let i = a - 0x80;
        let j = b - 0x80;
        assert(MACROMAN_HIGH@[i] != MACROMAN_HIGH@[j]);
    } else if a >= 0x80 {
        assert((MACROMAN_HIGH@[a - 0x80] as u32) >= 0x80);
    } else if b >= 0x80 {
        assert((MACROMAN_HIGH@[b - 0x80] as u32) >= 0x80);
    }
}

/// Decoding is injective: two byte strings with the same MacRoman text are
/// the same bytes.
pub proof fn lemma_decode_macroman_injective(a: Seq<u8>, b: Seq<u8>)
    requires
        macroman_text(a) == macroman_text(b),
    ensures
        a == b,
{
    assert(a.len() == macroman_text(a).len());
    assert(b.len() == macroman_text(b).len());
    assert forall|i: int| 0 <= i < a.len() implies a[i] == b[i] by {
        assert(macroman_text(a)[i] == macroman_char(a[i]));
        assert(macroman_text(b)[i] == macroman_char(b[i]));
        if a[i] != b[i] {
            lemma_macroman_char_injective(a[i], b[i]);
        }
    }
    assert(a =~= b);
}

/// The value of a lower-case hexadecimal digit.
pub open spec fn hex_value(c: char) -> int {
    if '0' <= c && c <= '9' {
        (c as int) - ('0' as int)
    } else {
        (c as int) - ('a' as int) + 10
    }
}

/// Undoes percent-encoding: `%` and two hex digits stand for the character
/// with that code, everything else for itself.
pub open spec fn percent_decode(t: Seq<char>) -> Seq<char>
    decreases t.len(),
{
    if t.len() == 0 {
        t
    } else if t[0] == '%' && t.len() >= 3 {
        seq![(16 * hex_value(t[1]) + hex_value(t[2])) as char] + percent_decode(t.skip(3))
    } else {
        seq![t[0]] + percent_decode(t.drop_first())
    }
}

proof fn lemma_hex_value(n: u32)
    requires
        n < 16,
    ensures
        hex_value(hex_digit(n)) == n,
{
    assert(('0' as u32) == 48 && ('a' as u32) == 97 && ('9' as u32) == 57);
}

proof fn lemma_sanitize_concat(a: Seq<char>, b: Seq<char>)
    ensures
        sanitize_text(a + b) == sanitize_text(a) + sanitize_text(b),
    decreases b.len(),
{
    if b.len() == 0 {
        assert(a + b =~= a);
        assert(sanitize_text(a) + sanitize_text(b) =~= sanitize_text(a));
    } else {
        lemma_sanitize_concat(a, b.drop_last());
        assert((a + b).drop_last() =~= a + b.drop_last());
        assert(sanitize_text(a) + sanitize_text(b) =~= sanitize_text(a) + sanitize_text(b.drop_last())
            + sanitize_char(b.last()));
    }
}

/// Percent-decoding a sanitised name gives the name back, so different
/// names never become the same Unix name.
pub proof fn lemma_sanitize_reversible(s: Seq<char>)
    ensures
        percent_decode(sanitize_text(s)) == s,
    decreases s.len(),
{
    if s.len() > 0 {
        let c = s[0];
        let rest = s.drop_first();
        lemma_sanitize_reversible(rest);
        lemma_sanitize_concat(seq![c], rest);
        assert(seq![c] + rest =~= s);
        assert(seq![c].drop_last() =~= Seq::<char>::empty());
        assert(sanitize_text(seq![c].drop_last()) =~= Seq::<char>::empty());
        assert(sanitize_text(seq![c]) == sanitize_text(seq![c].drop_last()) + sanitize_char(c));
        assert(sanitize_text(seq![c]) =~= sanitize_char(c));
        let t = sanitize_text(s);
        let r = sanitize_text(rest);
        assert(t == sanitize_char(c) + r);
        if needs_escape(c) {
            let x = c as u32;
            assert(x < 0x80);
            lemma_hex_value(x / 16);
            lemma_hex_value(x % 16);
            assert(t[0] == '%');
            assert(t[1] == hex_digit(x / 16));
            assert(t[2] == hex_digit(x % 16));
            assert(t.skip(3) =~= r);
            assert((16 * hex_value(t[1]) + hex_value(t[2])) == x);
            vstd::utf8::char_u32_cast(c, x);
            assert(((x as int) as char) == c);
            assert(percent_decode(t) =~= seq![c] + rest);
        } else {
            assert(t[0] == c);
            assert(t.drop_first() =~= r);
            assert(percent_decode(t) =~= seq![c] + rest);
        }
    }
}

/// A name with nothing to escape is kept as it is.
pub proof fn lemma_sanitize_keeps_safe_names(s: Seq<char>)
    requires
        forall|i: int| 0 <= i < s.len() ==> !needs_escape(#[trigger] s[i]),
    ensures
        sanitize_text(s) == s,
    decreases s.len(),
{
    if s.len() > 0 {
        lemma_sanitize_keeps_safe_names(s.drop_last());
        assert(!needs_escape(s[s.len() - 1]));
        assert(s.drop_last().push(s.last()) =~= s);
    }
}

proof fn lemma_crc16_bits8(x: u16)
    ensures
        crc16_bits(x, 8) == crc16_bit(
            crc16_bit(crc16_bit(crc16_bit(crc16_bit(crc16_bit(crc16_bit(crc16_bit(x))))))),
        ),
{
    reveal_with_fuel(crc16_bits, 9);
}

/// Feeding a CRC's own two bytes, high byte first, brings it to zero.
proof fn lemma_crc16_own_bytes(c: u16)
    ensures
        crc16_byte(crc16_byte(c, (c / 256) as u8), (c % 256) as u8) == 0,
{
    let x0 = (c ^ (((c / 256) as u8 as u16) << 8u16)) as u16;
    let a1 = crc16_bit(x0);
    let a2 = crc16_bit(a1);
    let a3 = crc16_bit(a2);
    let a4 = crc16_bit(a3);
    let a5 = crc16_bit(a4);
    let a6 = crc16_bit(a5);
    let a7 = crc16_bit(a6);
    let a8 = crc16_bit(a7);
    let y0 = (a8 ^ (((c % 256) as u8 as u16) << 8u16)) as u16;
    let b1 = crc16_bit(y0);
    let b2 = crc16_bit(b1);
    let b3 = crc16_bit(b2);
    let b4 = crc16_bit(b3);
    let b5 = crc16_bit(b4);
    let b6 = crc16_bit(b5);
    let b7 = crc16_bit(b6);
    let b8 = crc16_bit(b7);
    lemma_crc16_bits8(x0);
    lemma_crc16_bits8(y0);
    assert(b8 == 0) by (bit_vector)
        requires
            x0 == (c ^ (((c / 256) as u8 as u16) << 8u16)) as u16,
            a1 == crc16_bit(x0),
            a2 == crc16_bit(a1),
            a3 == crc16_bit(a2),
            a4 == crc16_bit(a3),
            a5 == crc16_bit(a4),
            a6 == crc16_bit(a5),
            a7 == crc16_bit(a6),
            a8 == crc16_bit(a7),
            y0 == (a8 ^ (((c % 256) as u8 as u16) << 8u16)) as u16,
            b1 == crc16_bit(y0),
            b2 == crc16_bit(b1),
            b3 == crc16_bit(b2),
            b4 == crc16_bit(b3),
            b5 == crc16_bit(b4),
            b6 == crc16_bit(b5),
            b7 == crc16_bit(b6),
            b8 == crc16_bit(b7),
    ;
}

/// Appending a CRC to its data, high byte first (as MacBinary II and
/// BinHex 4.0 do), leaves a zero residue: the CRC of data and CRC together,
/// from the same start value, is 0.
pub proof fn lemma_crc16_residue(data: Seq<u8>, init: u16)
    ensures
        spec_crc16(data + be16_bytes(spec_crc16(data, init)), init) == 0,
{
    let c = spec_crc16(data, init);
    let t = data + be16_bytes(c);
    let hi = (c / 256) as u8;
    let lo = (c % 256) as u8;
    assert(t.drop_last() =~= data.push(hi));
    assert(data.push(hi).drop_last() =~= data);
    assert(t.last() == lo);
    assert(spec_crc16(data.push(hi), init) == crc16_byte(c, hi));
    assert(spec_crc16(t, init) == crc16_byte(crc16_byte(c, hi), lo));
    lemma_crc16_own_bytes(c);
}

/// The English month abbreviations, January first, three letters each.
pub open spec fn month_letters() -> Seq<char> {
    seq!['J', 'a', 'n', 'F', 'e', 'b', 'M', 'a', 'r', 'A', 'p', 'r', 'M', 'a', 'y', 'J', 'u', 'n', 'J', 'u', 'l', 'A', 'u', 'g', 'S', 'e', 'p', 'O', 'c', 't', 'N', 'o', 'v', 'D', 'e', 'c']
}

/// The English weekday abbreviations from Thursday (the weekday of
/// 1970-01-01), three letters each.
pub open spec fn weekday_letters() -> Seq<char> {
    seq!['T', 'h', 'u', 'F', 'r', 'i', 'S', 'a', 't', 'S', 'u', 'n', 'M', 'o', 'n', 'T', 'u', 'e', 'W', 'e', 'd']
}

/// A Mac timestamp is shown with the English names of its calendar month
/// and its weekday: the long form starts with the weekday and then the
/// month, the short form with the month; 1970-01-01 was a Thursday.
pub proof fn lemma_date_names(t: u32)
    requires
        t != 0,
    ensures
        ({
            let z = unix_day(t);
            let m = date_of_day(z).1;
            let w = ((z % 7) + 7) % 7;
            &&& 1 <= m <= 12
            &&& date_long_text(t).subrange(0, 3) == weekday_letters().subrange(3 * w, 3 * w + 3)
            &&& date_long_text(t).subrange(4, 7) == month_letters().subrange(3 * (m - 1), 3 * m)
            &&& date_short_text(t).subrange(0, 3) == month_letters().subrange(3 * (m - 1), 3 * m)
        }),
{
    let z = unix_day(t);
    assert(z >= -24107);
    lemma_date_of_day_valid(z);
    let m = date_of_day(z).1;
    let w = ((z % 7) + 7) % 7;
    assert(w == z % 7);
    let long = date_long_text(t);
    let short = date_short_text(t);
    assert(weekday_name(w).len() == 3);
    assert(month_name(m).len() == 3);
    assert(long.subrange(0, 3) =~= weekday_name(w));
    assert(long.subrange(4, 7) =~= month_name(m));
    assert(short.subrange(0, 3) =~= month_name(m));
    assert(weekday_letters().subrange(3 * w, 3 * w + 3) =~= weekday_name(w));
    assert(month_letters().subrange(3 * (m - 1), 3 * m) =~= month_name(m));
}

/// The decimal digit for `x` (0 to 9).
pub open spec fn digit_of(x: int) -> char {
    (48 + x) as char
}

proof fn lemma_small_decimal(n: int)
    requires
        0 <= n,
    ensures
        n < 10 ==> decimal(n as nat) == seq![digit_of(n)],
        10 <= n < 100 ==> decimal(n as nat) == seq![digit_of(n / 10), digit_of(n % 10)],
        1000 <= n < 10000 ==> decimal(n as nat) == seq![
            digit_of(n / 1000),
            digit_of((n / 100) % 10),
            digit_of((n / 10) % 10),
            digit_of(n % 10),
        ],
{
    assert(('0' as int) == 48);
    if 10 <= n < 100 {
        let a = n / 10;
        assert(decimal(n as nat) == decimal((n as nat) / 10).push(
            crate::text::digit_char(((n as nat) % 10) as int),
        ));
        assert(decimal(a as nat) == seq![digit_of(a)]);
        assert(decimal(n as nat) =~= seq![digit_of(n / 10), digit_of(n % 10)]);
    }
    if 1000 <= n < 10000 {
        let a = n / 10;
        let b = a / 10;
        let c = b / 10;
        assert(c == n / 1000 && b % 10 == (n / 100) % 10 && a % 10 == (n / 10) % 10);
        assert(decimal(c as nat) == seq![digit_of(c)]);
        assert(decimal(b as nat) =~= seq![digit_of(c), digit_of(b % 10)]);
        assert(decimal(a as nat) =~= seq![digit_of(c), digit_of(b % 10), digit_of(a % 10)]);
        assert(decimal(n as nat) =~= seq![
            digit_of(c),
            digit_of(b % 10),
            digit_of(a % 10),
            digit_of(n % 10),
        ]);
    }
}

/// Column by column, the long date is "Www Mmm dd hh:mm:ss yyyy" (24
/// characters, the day right-aligned with a space, the time with leading
/// zeros) and the short one "Mmm dd yyyy hh:mm" (17 characters), for the
/// calendar date and the time of day of the timestamp.
pub proof fn lemma_date_columns(t: u32)
    requires
        t != 0,
    ensures
        ({
            let z = unix_day(t);
            let y = date_of_day(z).0;
            let dd = date_of_day(z).2;
            let rem = secs_of_day(t);
            let hh = rem / 3600;
            let mi = (rem % 3600) / 60;
            let ss = rem % 60;
            let long = date_long_text(t);
            let short = date_short_text(t);
            &&& long.len() == 24
            &&& long[3] == ' ' && long[7] == ' ' && long[10] == ' ' && long[19] == ' '
            &&& long[8] == (if dd < 10 { ' ' } else { digit_of(dd / 10) })
            &&& long[9] == digit_of(dd % 10)
            &&& long[11] == digit_of(hh / 10) && long[12] == digit_of(hh % 10)
            &&& long[13] == ':'
            &&& long[14] == digit_of(mi / 10) && long[15] == digit_of(mi % 10)
            &&& long[16] == ':'
            &&& long[17] == digit_of(ss / 10) && long[18] == digit_of(ss % 10)
            &&& long[20] == digit_of(y / 1000) && long[21] == digit_of((y / 100) % 10)
            &&& long[22] == digit_of((y / 10) % 10) && long[23] == digit_of(y % 10)
            &&& short.len() == 17
            &&& short[3] == ' ' && short[6] == ' ' && short[11] == ' '
            &&& short[4] == (if dd < 10 { ' ' } else { digit_of(dd / 10) })
            &&& short[5] == digit_of(dd % 10)
            &&& short[7] == digit_of(y / 1000) && short[8] == digit_of((y / 100) % 10)
            &&& short[9] == digit_of((y / 10) % 10) && short[10] == digit_of(y % 10)
            &&& short[12] == digit_of(hh / 10) && short[13] == digit_of(hh % 10)
            &&& short[14] == ':'
            &&& short[15] == digit_of(mi / 10) && short[16] == digit_of(mi % 10)
        }),
{
    let z = unix_day(t);
    assert(-24107 <= z <= 30000);
    lemma_date_of_day_valid(z);
    lemma_year_range(z);
    let (y, m, dd) = date_of_day(z);
    let rem = secs_of_day(t);
    assert(0 <= rem < 86400);
    let hh = rem / 3600;
    let mi = (rem % 3600) / 60;
    let ss = rem % 60;
    lemma_small_decimal(dd);
    lemma_small_decimal(hh);
    lemma_small_decimal(mi);
    lemma_small_decimal(ss);
    lemma_small_decimal(y);
    let dayp = pad_left(decimal(dd as nat), 2, ' ');
    assert(dayp =~= seq![if dd < 10 { ' ' } else { digit_of(dd / 10) }, digit_of(dd % 10)]);
    assert(two_digits(hh) =~= seq![digit_of(hh / 10), digit_of(hh % 10)]);
    assert(two_digits(mi) =~= seq![digit_of(mi / 10), digit_of(mi % 10)]);
    assert(two_digits(ss) =~= seq![digit_of(ss / 10), digit_of(ss % 10)]);
    assert(pad_left(decimal(y as nat), 4, ' ') == decimal(y as nat));
    let long = date_long_text(t);
    let short = date_short_text(t);
    assert(weekday_name(z % 7).len() == 3);
    assert(month_name(m).len() == 3);
    assert(long =~= weekday_name(z % 7) + seq![' '] + month_name(m) + seq![' '] + dayp + seq![' ']
        + seq![digit_of(hh / 10), digit_of(hh % 10)] + seq![':'] + seq![digit_of(mi / 10), digit_of(mi % 10)]
        + seq![':'] + seq![digit_of(ss / 10), digit_of(ss % 10)] + seq![' '] + decimal(y as nat));
    assert(short =~= month_name(m) + seq![' '] + dayp + seq![' '] + decimal(y as nat) + seq![' ']
        + seq![digit_of(hh / 10), digit_of(hh % 10)] + seq![':'] + seq![digit_of(mi / 10), digit_of(mi % 10)]);
}

} // verus!
