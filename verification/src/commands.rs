//! The logic of the mfs* command set: resolving paths and patterns against
//! the flat directory, listing pseudo-folders, choosing export formats, and
//! the text the commands print. Reading the mount state and the image,
//! writing files and printing are the program's part.

use vstd::prelude::*;
use crate::binhex;
use crate::binhex::binhex_text;
use crate::error::MfsError;
use crate::glob::glob_match;
use crate::macbinary;
use crate::macbinary::macbinary_image;
use crate::mfs::{spec_read_fork, FileEntry, Fork, Volume, VolumeInfo};
use crate::text::{chars_of, decimal, is_prefix, lowercase, push_chars, push_decimal, string_of};
use crate::util::{
    date_long_text, glob_match_ci, mac_date_long, sanitize_text, sanitize_unix_name, starts_with_ci,
};

verus! {

// ---------------------------------------------------------------- paths

/// `s` without the colons at its end.
pub open spec fn trim_end_colons(s: Seq<char>) -> Seq<char>
    decreases s.len(),
{
    if s.len() > 0 && s.last() == ':' {
        trim_end_colons(s.drop_last())
    } else {
        s
    }
}

/// What comes before the last colon of `s`, or nothing if it has none.
pub open spec fn before_last_colon(s: Seq<char>) -> Seq<char>
    decreases s.len(),
{
    if s.len() == 0 {
        s
    } else if s.last() == ':' {
        s.drop_last()
    } else {
        before_last_colon(s.drop_last())
    }
}

/// What comes after the last colon of `s`, or all of `s` if it has none.
pub open spec fn last_component(s: Seq<char>) -> Seq<char>
    decreases s.len(),
{
    if s.len() == 0 {
        s
    } else if s.last() == ':' {
        Seq::empty()
    } else {
        last_component(s.drop_last()).push(s.last())
    }
}

/// `s` after its first `n` characters (nothing if it is shorter).
pub open spec fn skip_chars(s: Seq<char>, n: int) -> Seq<char> {
    if n <= s.len() {
        s.skip(n)
    } else {
        Seq::empty()
    }
}

/// A user path relative to the root: whether it was absolute (led by the
/// volume name and a colon, compared without case, or by a colon), and
/// what remains of it.
pub open spec fn strip_root(vol_name: Seq<char>, p: Seq<char>) -> (bool, Seq<char>) {
    let vp = vol_name + seq![':'];
    if is_prefix(lowercase(vp), lowercase(p)) {
        (true, skip_chars(p, vp.len() as int))
    } else if p.len() > 0 && p[0] == ':' {
        (true, p.drop_first())
    } else {
        (false, p)
    }
}

/// The full name that path `p`, seen from folder prefix `cur`, denotes.
pub open spec fn full_name(vol_name: Seq<char>, cur: Seq<char>, p: Seq<char>) -> Seq<char> {
    let (absolute, rel) = strip_root(vol_name, p);
    if absolute || cur.len() == 0 {
        rel
    } else {
        cur + seq![':'] + rel
    }
}

fn trim_end_colons_exec(s: &Vec<char>) -> (r: Vec<char>)
    ensures
        r@ == trim_end_colons(s@),
{
    let mut n = s.len();
    assert(s@.take(n as int) =~= s@);
    while n > 0 && s[n - 1] == ':'
        invariant
            n <= s.len(),
            trim_end_colons(s@) == trim_end_colons(s@.take(n as int)),
        decreases n,
    {
        assert(s@.take(n as int).drop_last() =~= s@.take(n - 1));
        n -= 1;
    }
    assert(trim_end_colons(s@.take(n as int)) == s@.take(n as int));
    let mut r = Vec::new();
    let mut k: usize = 0;
    while k < n
        invariant
            n <= s.len(),
            k <= n,
            r@ =~= s@.take(k as int),
        decreases n - k,
    {
        r.push(s[k]);
        k += 1;
    }
    r
}

fn subrange_chars(s: &Vec<char>, from: usize, to: usize) -> (r: Vec<char>)
    requires
        from <= to <= s.len(),
    ensures
        r@ == s@.subrange(from as int, to as int),
{
    let mut r = Vec::new();
    let mut k = from;
    while k < to
        invariant
            from <= k <= to <= s.len(),
            r@ =~= s@.subrange(from as int, k as int),
        decreases to - k,
    {
        r.push(s[k]);
        k += 1;
    }
    r
}

fn before_last_colon_exec(s: &Vec<char>) -> (r: Vec<char>)
    ensures
        r@ == before_last_colon(s@),
{
    let mut n = s.len();
    assert(s@.take(n as int) =~= s@);
    while n > 0 && s[n - 1] != ':'
        invariant
            n <= s.len(),
            before_last_colon(s@) == before_last_colon(s@.take(n as int)),
        decreases n,
    {
        assert(s@.take(n as int).drop_last() =~= s@.take(n - 1));
        n -= 1;
    }
    if n == 0 {
        assert(s@.take(0) =~= Seq::<char>::empty());
        Vec::new()
    } else {
        assert(s@.take(n as int).drop_last() =~= s@.take(n - 1));
        subrange_chars(s, 0, n - 1)
    }
}

fn last_component_exec(s: &Vec<char>) -> (r: Vec<char>)
    ensures
        r@ == last_component(s@),
{
    let mut n = s.len();
    assert(s@.take(n as int) =~= s@);
    assert(s@.subrange(n as int, n as int) =~= Seq::<char>::empty());
    assert(last_component(s@) + Seq::<char>::empty() =~= last_component(s@));
    while n > 0 && s[n - 1] != ':'
        invariant
            n <= s.len(),
            last_component(s@) == last_component(s@.take(n as int)) + s@.subrange(
                n as int,
                s.len() as int,
            ),
        decreases n,
    {
        assert(s@.take(n as int).drop_last() =~= s@.take(n - 1));
        assert(last_component(s@.take(n - 1)) + s@.subrange(n - 1, s.len() as int)
            =~= last_component(s@.take(n - 1)).push(s@[n - 1]) + s@.subrange(
            n as int,
            s.len() as int,
        ));
        n -= 1;
    }
    assert(last_component(s@.take(n as int)) =~= Seq::<char>::empty());
    let r = subrange_chars(s, n, s.len());
    assert(r@ =~= last_component(s@));
    r
}

/// Resolves a user path (`Vol:sub`, `:sub`, `sub`, with or without the
/// current prefix) against the volume name; the flag tells whether it was
/// absolute.
fn strip_root_exec(vol_name: &str, p: Vec<char>) -> (r: (bool, Vec<char>))
    ensures
        r.0 == strip_root(vol_name@, p@).0,
        r.1@ == strip_root(vol_name@, p@).1,
{
    let mut vc = chars_of(vol_name);
    vc.push(':');
    assert(vc@ =~= vol_name@ + seq![':']);
    let vp = string_of(vc.as_slice());
    let ps = string_of(p.as_slice());
    if starts_with_ci(ps.as_str(), vp.as_str()) {
        if vc.len() <= p.len() {
            (true, subrange_chars(&p, vc.len(), p.len()))
        } else {
            (true, Vec::new())
        }
    } else if p.len() > 0 && p[0] == ':' {
        let r = subrange_chars(&p, 1, p.len());
        assert(r@ =~= p@.drop_first());
        (true, r)
    } else {
        (false, p)
    }
}

fn full_name_exec(vol_name: &str, cur: &str, p: Vec<char>) -> (r: Vec<char>)
    ensures
        r@ == full_name(vol_name@, cur@, p@),
{
    let (absolute, rel) = strip_root_exec(vol_name, p);
    let cc = chars_of(cur);
    if absolute || cc.len() == 0 {
        rel
    } else {
        let mut r = cc;
        r.push(':');
        let ghost before = r@;
        let mut k: usize = 0;
        while k < rel.len()
            invariant
                k <= rel.len(),
                r@ =~= before + rel@.take(k as int),
            decreases rel.len() - k,
        {
            r.push(rel[k]);
            k += 1;
        }
        assert(rel@.take(rel.len() as int) =~= rel@);
        r
    }
}

// --------------------------------------------------------------- matching

/// Indices `i < n` of the files whose names the pattern `full` matches,
/// both lower-cased, in directory order.
pub open spec fn matching_files(files: Seq<FileEntry>, full: Seq<char>, n: int) -> Seq<usize>
    decreases n,
{
    if n <= 0 {
        Seq::empty()
    } else {
        let before = matching_files(files, full, n - 1);
        if glob_match(lowercase(full), lowercase(files[n - 1].name@)) {
            before.push((n - 1) as usize)
        } else {
            before
        }
    }
}

/// Match a user pattern (globs allowed) against full on-disk names.
/// Patterns are relative to the current prefix; a leading ':' or
/// leading volume name makes them relative to the root. Gives the
/// indices of the matching files.
pub fn match_files(vol: &Volume, prefix: &str, pattern: &str) -> (r: Vec<usize>)
    ensures
        r@ == matching_files(
            vol.files@,
            full_name(vol.info.name@, prefix@, pattern@),
            vol.files.len() as int,
        ),
{
    let full = full_name_exec(vol.info.name.as_str(), prefix, chars_of(pattern));
    let fs = string_of(full.as_slice());
    let mut r: Vec<usize> = Vec::new();
    let mut i: usize = 0;
    while i < vol.files.len()
        invariant
            i <= vol.files.len(),
            fs@ == full_name(vol.info.name@, prefix@, pattern@),
            r@ == matching_files(vol.files@, fs@, i as int),
        decreases vol.files.len() - i,
    {
        if glob_match_ci(fs.as_str(), vol.files[i].name.as_str()) {
            r.push(i);
        }
        i += 1;
    }
    r
}

// ------------------------------------------------------------- cd / pwd

/// Index of the first file at or after `i` whose name begins with
/// `needle` (compared without case), or -1.
pub open spec fn find_with_prefix(files: Seq<FileEntry>, needle: Seq<char>, i: int) -> int
    decreases files.len() - i,
{
    if i < 0 || i >= files.len() {
        -1
    } else if is_prefix(lowercase(needle), lowercase(files[i].name@)) {
        i
    } else {
        find_with_prefix(files, needle, i + 1)
    }
}

/// The first `n` characters of `s` (all of it if shorter).
pub open spec fn take_chars(s: Seq<char>, n: int) -> Seq<char> {
    if n <= s.len() {
        s.take(n)
    } else {
        s
    }
}

/// The folder prefix that `mfscd arg` moves to from prefix `cur`, or (as
/// the error) the full path of a folder that no file lies in. Accepted
/// forms: "" or ":" (root), "Vol:sub", ":sub", "sub", "sub:deeper",
/// ".." (up one level); trailing colons are ignored, and the result takes
/// the case of the first file name that lies in the folder.
pub open spec fn spec_resolve_prefix(
    vol_name: Seq<char>,
    files: Seq<FileEntry>,
    cur: Seq<char>,
    arg: Seq<char>,
) -> Result<Seq<char>, Seq<char>> {
    let p = trim_end_colons(arg);
    if p == seq!['.', '.'] {
        Ok(before_last_colon(cur))
    } else if strip_root(vol_name, p).1.len() == 0 {
        Ok(Seq::empty())
    } else {
        let full = full_name(vol_name, cur, p);
        let i = find_with_prefix(files, full + seq![':'], 0);
        if i < 0 {
            Err(full)
        } else {
            Ok(take_chars(files[i].name@, full.len() as int))
        }
    }
}

/// Turn a user-supplied path into a validated folder prefix.
pub fn resolve_prefix(vol: &Volume, cur: &str, arg: &str) -> (r: Result<String, MfsError>)
    ensures
        match spec_resolve_prefix(vol.info.name@, vol.files@, cur@, arg@) {
            Ok(s) => r matches Ok(x) && x@ == s,
            Err(full) => r matches Err(MfsError::NoSuchFolder { path }) && path@ == full,
        },
{
    let p = trim_end_colons_exec(&chars_of(arg));
    if p.len() == 2 && p[0] == '.' && p[1] == '.' {
        assert(p@ =~= seq!['.', '.']);
        let cc = chars_of(cur);
        return Ok(string_of(before_last_colon_exec(&cc).as_slice()));
    }
    assert(p@ != seq!['.', '.']);
    let pc = p.clone();
    assert(pc@ =~= p@);
    let (absolute, rel) = strip_root_exec(vol.info.name.as_str(), pc);
    if rel.len() == 0 {
        return Ok(String::new());
    }
    let ghost pp = p@;
    let full = full_name_exec(vol.info.name.as_str(), cur, p);
    let mut nc = full.clone();
    nc.push(':');
    assert(nc@ =~= full@ + seq![':']);
    let needle = string_of(nc.as_slice());
    let mut i: usize = 0;
    while i < vol.files.len()
        invariant
            i <= vol.files.len(),
            needle@ == full@ + seq![':'],
            pp == trim_end_colons(arg@),
            pp != seq!['.', '.'],
            strip_root(vol.info.name@, pp).1.len() != 0,
            full@ == full_name(vol.info.name@, cur@, pp),
            find_with_prefix(vol.files@, needle@, 0) == find_with_prefix(
                vol.files@,
                needle@,
                i as int,
            ),
        decreases vol.files.len() - i,
    {
        if starts_with_ci(vol.files[i].name.as_str(), needle.as_str()) {
            // Normalize case to how it appears on disk.
            let name = chars_of(vol.files[i].name.as_str());
            let n = if full.len() <= name.len() {
                full.len()
            } else {
                name.len()
            };
            let canon = subrange_chars(&name, 0, n);
            assert(canon@ =~= take_chars(name@, full@.len() as int));
            assert(find_with_prefix(vol.files@, needle@, i as int) == i);
            return Ok(string_of(canon.as_slice()));
        }
        i += 1;
    }
    Err(MfsError::NoSuchFolder { path: string_of(full.as_slice()) })
}

/// What `mfspwd` shows: the volume name and the prefix, each followed by
/// a colon.
pub open spec fn pwd_text(vol_name: Seq<char>, prefix: Seq<char>) -> Seq<char> {
    if prefix.len() == 0 {
        vol_name + seq![':']
    } else {
        vol_name + seq![':'] + prefix + seq![':']
    }
}

/// The line `mfspwd` prints.
pub fn pwd_line(vol_name: &str, prefix: &str) -> (s: String)
    ensures
        s@ == pwd_text(vol_name@, prefix@),
{
    let mut s = string_of(chars_of(vol_name).as_slice());
    s.push(':');
    let pc = chars_of(prefix);
    if pc.len() > 0 {
        push_chars(&mut s, pc.as_slice());
        s.push(':');
    }
    s
}

// ------------------------------------------------------------------ copy

/// The export formats of `mfscopy`.
#[derive(Clone, Copy, PartialEq, Eq, Debug, Structural)]
pub enum Mode {
    MacBinary,
    BinHex,
    Text,
    Raw,
    Auto,
}

/// File name extension of each format.
pub open spec fn mode_extension(m: Mode) -> Seq<char> {
    match m {
        Mode::MacBinary => seq!['.', 'b', 'i', 'n'],
        Mode::BinHex => seq!['.', 'h', 'q', 'x'],
        Mode::Text => seq!['.', 't', 'x', 't'],
        _ => Seq::empty(),
    }
}

impl Mode {
    /// File name extension of this format (".bin", ".hqx", ".txt", or none).
    pub fn extension(self) -> (s: String)
        ensures
            s@ == mode_extension(self),
    {
        let mut s = String::new();
        match self {
            Mode::MacBinary => {
                s.push('.');
                s.push('b');
                s.push('i');
                s.push('n');
            },
            Mode::BinHex => {
                s.push('.');
                s.push('h');
                s.push('q');
                s.push('x');
            },
            Mode::Text => {
                s.push('.');
                s.push('t');
                s.push('x');
                s.push('t');
            },
            Mode::Raw | Mode::Auto => {},
        }
        assert(s@ =~= mode_extension(self));
        s
    }
}

/// The format automatic mode picks: MacBinary II if the file has a
/// resource fork, text if its type is `TEXT`, raw otherwise.
pub open spec fn spec_effective_mode(f: FileEntry, mode: Mode) -> Mode {
    if mode != Mode::Auto {
        mode
    } else if f.rsrc_len > 0 {
        Mode::MacBinary
    } else if f.type_code@ == seq![0x54u8, 0x45u8, 0x58u8, 0x54u8] {
        Mode::Text
    } else {
        Mode::Raw
    }
}

/// The format a file is exported in under `mode`.
pub fn effective_mode(f: &FileEntry, mode: Mode) -> (r: Mode)
    ensures
        r == spec_effective_mode(*f, mode),
        r != Mode::Auto,
{
    if mode != Mode::Auto {
        return mode;
    }
    if f.rsrc_len > 0 {
        Mode::MacBinary
    } else if f.type_code[0] == 0x54 && f.type_code[1] == 0x45 && f.type_code[2] == 0x58
        && f.type_code[3] == 0x54 {
        assert(f.type_code@ =~= seq![0x54u8, 0x45u8, 0x58u8, 0x54u8]);
        Mode::Text
    } else {
        assert(f.type_code@ != seq![0x54u8, 0x45u8, 0x58u8, 0x54u8] || f.rsrc_len > 0) by {
            if f.type_code@ == seq![0x54u8, 0x45u8, 0x58u8, 0x54u8] {
                assert(f.type_code@[0] == 0x54u8);
            }
        }
        Mode::Raw
    }
}

/// Unix file name for an exported file: the last component of its name,
/// made safe, with the extension of its format.
pub fn output_file_name(f: &FileEntry, mode: Mode) -> (s: String)
    ensures
        s@ == sanitize_text(last_component(f.name@)) + mode_extension(
            spec_effective_mode(*f, mode),
        ),
{
    let base = last_component_exec(&chars_of(f.name.as_str()));
    let mut s = sanitize_unix_name(string_of(base.as_slice()).as_str());
    let ext = effective_mode(f, mode).extension();
    push_chars(&mut s, chars_of(ext.as_str()).as_slice());
    s
}

/// Text conversion: carriage returns become line feeds.
pub open spec fn cr_to_lf(s: Seq<u8>) -> Seq<u8> {
    s.map_values(|b: u8| if b == 0x0D { 0x0Au8 } else { b })
}

/// The bytes `mfscopy` writes for a file in mode `mode`, or the error
/// reading its forks gave.
pub open spec fn spec_export(vol: Volume, f: FileEntry, mode: Mode) -> Result<Seq<u8>, MfsError> {
    let rd = spec_read_fork(vol.data@, vol.base as int, vol.info, f, Fork::Data);
    let rr = spec_read_fork(vol.data@, vol.base as int, vol.info, f, Fork::Rsrc);
    match spec_effective_mode(f, mode) {
        Mode::MacBinary => match rd {
            Err(e) => Err(e),
            Ok(data) => match rr {
                Err(e) => Err(e),
                Ok(rsrc) => Ok(macbinary_image(f, data, rsrc)),
            },
        },
        Mode::BinHex => match rd {
            Err(e) => Err(e),
            Ok(data) => match rr {
                Err(e) => Err(e),
                Ok(rsrc) => Ok(binhex_text(f, data, rsrc)),
            },
        },
        Mode::Text => match rd {
            Err(e) => Err(e),
            Ok(data) => Ok(cr_to_lf(data)),
        },
        _ => rd,
    }
}

/// The bytes of a file exported in `mode` (MacBinary II, BinHex 4.0,
/// text with CR turned to LF, raw data fork, or the automatic choice).
pub fn export_bytes(vol: &Volume, f: &FileEntry, mode: Mode) -> (r: Result<Vec<u8>, MfsError>)
    ensures
        match r {
            Ok(v) => spec_export(*vol, *f, mode) == Ok::<Seq<u8>, MfsError>(v@),
            Err(e) => spec_export(*vol, *f, mode) == Err::<Seq<u8>, MfsError>(e),
        },
{
    let mode = effective_mode(f, mode);
    match mode {
        Mode::MacBinary => {
            let data = match vol.read_fork(f, Fork::Data) {
                Ok(d) => d,
                Err(e) => return Err(e),
            };
            let rsrc = match vol.read_fork(f, Fork::Rsrc) {
                Ok(d) => d,
                Err(e) => return Err(e),
            };
            Ok(macbinary::encode(f, data.as_slice(), rsrc.as_slice()))
        },
        Mode::BinHex => {
            let data = match vol.read_fork(f, Fork::Data) {
                Ok(d) => d,
                Err(e) => return Err(e),
            };
            let rsrc = match vol.read_fork(f, Fork::Rsrc) {
                Ok(d) => d,
                Err(e) => return Err(e),
            };
            Ok(binhex::encode(f, data.as_slice(), rsrc.as_slice()))
        },
        Mode::Text => {
            let mut data = match vol.read_fork(f, Fork::Data) {
                Ok(d) => d,
                Err(e) => return Err(e),
            };
            let ghost orig = data@;
            let mut i: usize = 0;
            while i < data.len()
                invariant
                    i <= data.len(),
                    data.len() == orig.len(),
                    forall|k: int|
                        0 <= k < i ==> data@[k] == (if orig[k] == 0x0D {
                            0x0Au8
                        } else {
                            orig[k]
                        }),
                    forall|k: int| i <= k < data.len() ==> data@[k] == orig[k],
                decreases data.len() - i,
            {
                if data[i] == 0x0D {
                    data.set(i, 0x0A);
                }
                i += 1;
            }
            assert(data@ =~= cr_to_lf(orig));
            Ok(data)
        },
        Mode::Raw | Mode::Auto => vol.read_fork(f, Fork::Data),
    }
}

// ------------------------------------------------------------- arguments

/// The characters of an argument that is exactly `-` and `c`.
pub open spec fn flag(c: char) -> Seq<char> {
    seq!['-', c]
}

fn is_flag(a: &Vec<char>, c: char) -> (r: bool)
    ensures
        r == (a@ == flag(c)),
{
    if a.len() == 2 && a[0] == '-' && a[1] == c {
        assert(a@ =~= flag(c));
        true
    } else {
        assert(a@ != flag(c)) by {
            if a@ == flag(c) {
                assert(a@[0] == '-' && a@[1] == c);
            }
        }
        false
    }
}

/// `mfsls` arguments: `-l` asks for the long listing, any other argument
/// that starts with `-` is a usage error (`None`), the rest are patterns.
pub open spec fn ls_args(args: Seq<String>, n: int) -> Option<(bool, Seq<Seq<char>>)>
    decreases n,
{
    if n <= 0 {
        Some((false, Seq::empty()))
    } else {
        match ls_args(args, n - 1) {
            None => None,
            Some((long, pats)) => {
                let a = args[n - 1]@;
                if a == flag('l') {
                    Some((true, pats))
                } else if a.len() > 0 && a[0] == '-' {
                    None
                } else {
                    Some((long, pats.push(a)))
                }
            },
        }
    }
}

proof fn lemma_ls_args_stop(args: Seq<String>, k: int, n: int)
    requires
        k <= n,
        ls_args(args, k) is None,
    ensures
        ls_args(args, n) is None,
    decreases n - k,
{
    if k < n {
        lemma_ls_args_stop(args, k, n - 1);
    }
}

/// Reads the arguments of `mfsls`: whether to list long, and the patterns.
pub fn parse_ls_args(args: &[String]) -> (r: Result<(bool, Vec<String>), MfsError>)
    ensures
        match ls_args(args@, args.len() as int) {
            None => r matches Err(MfsError::LsUsage),
            Some((long, pats)) => r matches Ok((l, ps)) && l == long && ps@.len() == pats.len()
                && forall|i: int| 0 <= i < pats.len() ==> #[trigger] ps@[i]@ == pats[i],
        },
{
    let mut long = false;
    let mut patterns: Vec<String> = Vec::new();
    let mut i: usize = 0;
    while i < args.len()
        invariant
            i <= args.len(),
            ls_args(args@, i as int) matches Some((l, pats)) && l == long && patterns@.len()
                == pats.len() && forall|k: int|
                0 <= k < pats.len() ==> #[trigger] patterns@[k]@ == pats[k],
        decreases args.len() - i,
    {
        let a = chars_of(args[i].as_str());
        if is_flag(&a, 'l') {
            long = true;
        } else if a.len() > 0 && a[0] == '-' {
            proof {
                lemma_ls_args_stop(args@, i + 1, args.len() as int);
            }
            return Err(MfsError::LsUsage);
        } else {
            patterns.push(args[i].clone());
        }
        i += 1;
    }
    Ok((long, patterns))
}

/// `mfscopy` arguments: the mode switches (the last one counts), and the
/// paths; an argument longer than `-` that starts with `-` but is no
/// switch is an error (`Err` with it).
pub open spec fn copy_args(args: Seq<String>, n: int) -> Result<(Mode, Seq<Seq<char>>), Seq<char>>
    decreases n,
{
    if n <= 0 {
        Ok((Mode::Auto, Seq::empty()))
    } else {
        match copy_args(args, n - 1) {
            Err(o) => Err(o),
            Ok((mode, paths)) => {
                let a = args[n - 1]@;
                if a == flag('m') {
                    Ok((Mode::MacBinary, paths))
                } else if a == flag('b') {
                    Ok((Mode::BinHex, paths))
                } else if a == flag('t') {
                    Ok((Mode::Text, paths))
                } else if a == flag('r') {
                    Ok((Mode::Raw, paths))
                } else if a == flag('a') {
                    Ok((Mode::Auto, paths))
                } else if a.len() > 1 && a[0] == '-' {
                    Err(a)
                } else {
                    Ok((mode, paths.push(a)))
                }
            },
        }
    }
}

proof fn lemma_copy_args_stop(args: Seq<String>, k: int, n: int)
    requires
        k <= n,
        copy_args(args, k) is Err,
    ensures
        copy_args(args, n) == copy_args(args, k),
    decreases n - k,
{
    if k < n {
        lemma_copy_args_stop(args, k, n - 1);
    }
}

/// Reads the arguments of `mfscopy`: the mode, the source patterns and
/// the destination (the last path; at least one source is needed).
pub fn parse_copy_args(args: &[String]) -> (r: Result<(Mode, Vec<String>, String), MfsError>)
    ensures
        match copy_args(args@, args.len() as int) {
            Err(o) => r matches Err(MfsError::UnknownOption { option }) && option@ == o,
            Ok((mode, paths)) => if paths.len() < 2 {
                r matches Err(MfsError::CopyUsage)
            } else {
                r matches Ok((m, srcs, dest)) && m == mode && dest@ == paths.last() && srcs@.len()
                    == paths.len() - 1 && forall|i: int|
                    0 <= i < srcs@.len() ==> #[trigger] srcs@[i]@ == paths[i]
            },
        },
{
    let mut mode = Mode::Auto;
    let mut paths: Vec<String> = Vec::new();
    let mut i: usize = 0;
    while i < args.len()
        invariant
            i <= args.len(),
            copy_args(args@, i as int) matches Ok((md, ps)) && md == mode && paths@.len()
                == ps.len() && forall|k: int| 0 <= k < ps.len() ==> #[trigger] paths@[k]@ == ps[k],
        decreases args.len() - i,
    {
        let a = chars_of(args[i].as_str());
        if is_flag(&a, 'm') {
            mode = Mode::MacBinary;
        } else if is_flag(&a, 'b') {
            mode = Mode::BinHex;
        } else if is_flag(&a, 't') {
            mode = Mode::Text;
        } else if is_flag(&a, 'r') {
            mode = Mode::Raw;
        } else if is_flag(&a, 'a') {
            mode = Mode::Auto;
        } else if a.len() > 1 && a[0] == '-' {
            proof {
                lemma_copy_args_stop(args@, i + 1, args.len() as int);
            }
            return Err(MfsError::UnknownOption { option: args[i].clone() });
        } else {
            paths.push(args[i].clone());
        }
        i += 1;
    }
    if paths.len() < 2 {
        return Err(MfsError::CopyUsage);
    }
    let dest = paths.pop().unwrap();
    Ok((mode, paths, dest))
}

/// `sel` extended by the files of `m`, in order, that are not there yet
/// (the same file number counts as the same file).
pub open spec fn add_new_files(files: Seq<FileEntry>, sel: Seq<usize>, m: Seq<usize>) -> Seq<usize>
    decreases m.len(),
{
    if m.len() == 0 {
        sel
    } else {
        let s = add_new_files(files, sel, m.drop_last());
        if exists|j: int|
            0 <= j < s.len() && #[trigger] files[s[j] as int].file_num == files[m.last() as int].file_num {
            s
        } else {
            s.push(m.last())
        }
    }
}

/// The files the first `n` source patterns select, without repeats, or
/// (as the error) the first pattern that matches no file.
pub open spec fn copy_selection(
    vol_name: Seq<char>,
    files: Seq<FileEntry>,
    prefix: Seq<char>,
    pats: Seq<Seq<char>>,
    n: int,
) -> Result<Seq<usize>, Seq<char>>
    decreases n,
{
    if n <= 0 {
        Ok(Seq::empty())
    } else {
        match copy_selection(vol_name, files, prefix, pats, n - 1) {
            Err(p) => Err(p),
            Ok(s) => {
                let m = matching_files(
                    files,
                    full_name(vol_name, prefix, pats[n - 1]),
                    files.len() as int,
                );
                if m.len() == 0 {
                    Err(pats[n - 1])
                } else {
                    Ok(add_new_files(files, s, m))
                }
            },
        }
    }
}

proof fn lemma_matching_bounds(files: Seq<FileEntry>, full: Seq<char>, n: int)
    requires
        n <= files.len(),
    ensures
        forall|i: int|
            0 <= i < matching_files(files, full, n).len() ==> #[trigger] matching_files(
                files,
                full,
                n,
            )[i] < files.len(),
    decreases n,
{
    if n > 0 {
        lemma_matching_bounds(files, full, n - 1);
        let before = matching_files(files, full, n - 1);
        assert forall|i: int|
            0 <= i < matching_files(files, full, n).len() implies #[trigger] matching_files(
            files,
            full,
            n,
        )[i] < files.len() by {
            if i < before.len() {
                assert(before[i] < files.len());
            }
        }
    }
}

proof fn lemma_selection_stop(
    vol_name: Seq<char>,
    files: Seq<FileEntry>,
    prefix: Seq<char>,
    pats: Seq<Seq<char>>,
    k: int,
    n: int,
)
    requires
        0 <= k <= n,
        copy_selection(vol_name, files, prefix, pats, k) is Err,
    ensures
        copy_selection(vol_name, files, prefix, pats, n) == copy_selection(
            vol_name,
            files,
            prefix,
            pats,
            k,
        ),
    decreases n - k,
{
    if k < n {
        lemma_selection_stop(vol_name, files, prefix, pats, k, n - 1);
    }
}

/// No two entries of `sel` name files with the same file number.
pub open spec fn distinct_files(files: Seq<FileEntry>, sel: Seq<usize>) -> bool {
    forall|i: int, j: int|
        0 <= i < j < sel.len() ==> files[#[trigger] sel[i] as int].file_num != files[#[trigger] sel[j] as int].file_num
}

proof fn lemma_add_new_files_distinct(files: Seq<FileEntry>, sel: Seq<usize>, m: Seq<usize>)
    requires
        distinct_files(files, sel),
    ensures
        distinct_files(files, add_new_files(files, sel, m)),
    decreases m.len(),
{
    if m.len() > 0 {
        lemma_add_new_files_distinct(files, sel, m.drop_last());
        let s = add_new_files(files, sel, m.drop_last());
        if !(exists|j: int|
            0 <= j < s.len() && #[trigger] files[s[j] as int].file_num == files[m.last() as int].file_num) {
            let t = s.push(m.last());
            assert forall|i: int, j: int| 0 <= i < j < t.len() implies files[#[trigger] t[i] as int].file_num
                != files[#[trigger] t[j] as int].file_num by {
                assert(t[i] == s[i]);
                if j < s.len() {
                    assert(t[j] == s[j]);
                }
            }
        }
    }
}

/// A copy never names one file twice: the selection of any number of source
/// patterns holds each file number at most once.
pub proof fn lemma_copy_selection_distinct(
    vol_name: Seq<char>,
    files: Seq<FileEntry>,
    prefix: Seq<char>,
    pats: Seq<Seq<char>>,
    n: int,
)
    ensures
        copy_selection(vol_name, files, prefix, pats, n) matches Ok(s) ==> distinct_files(files, s),
    decreases n,
{
    if n > 0 {
        lemma_copy_selection_distinct(vol_name, files, prefix, pats, n - 1);
        if let Ok(s) = copy_selection(vol_name, files, prefix, pats, n - 1) {
            let m = matching_files(files, full_name(vol_name, prefix, pats[n - 1]), files.len() as int);
            lemma_add_new_files_distinct(files, s, m);
        }
    }
}

/// The files `mfscopy` copies: the destination must not be an MFS path,
/// every source pattern must match, and several files need a directory
/// as the destination. Gives indices into the volume's files.
pub fn plan_copy(
    vol: &Volume,
    prefix: &str,
    patterns: &[String],
    dest: &str,
    dest_is_dir: bool,
) -> (r: Result<Vec<usize>, MfsError>)
    ensures
        dest@.contains(':') ==> (r matches Err(MfsError::DestinationIsMfs { dest: d }) && d@
            == dest@),
        !dest@.contains(':') ==> match copy_selection(
            vol.info.name@,
            vol.files@,
            prefix@,
            patterns@.map_values(|s: String| s@),
            patterns.len() as int,
        ) {
            Err(p) => r matches Err(MfsError::NoSuchFile { pattern }) && pattern@ == p,
            Ok(s) => if s.len() > 1 && !dest_is_dir {
                r matches Err(MfsError::DestinationNotDir { dest: d, count }) && d@ == dest@
                    && count == s.len()
            } else {
                r matches Ok(v) && v@ == s
            },
        },
{
    let dc = chars_of(dest);
    let mut k: usize = 0;
    while k < dc.len()
        invariant
            k <= dc.len(),
            dc@ == dest@,
            forall|j: int| 0 <= j < k ==> dc@[j] != ':',
        decreases dc.len() - k,
    {
        if dc[k] == ':' {
            assert(dest@[k as int] == ':');
            assert(dest@.contains(':'));
            return Err(MfsError::DestinationIsMfs { dest: string_of(dc.as_slice()) });
        }
        k += 1;
    }
    assert(!dest@.contains(':')) by {
        if dest@.contains(':') {
            let j = choose|j: int| 0 <= j < dest@.len() && dest@[j] == ':';
            assert(dc@[j] == ':');
        }
    }
    let ghost pats = patterns@.map_values(|s: String| s@);
    let mut selected: Vec<usize> = Vec::new();
    let mut p: usize = 0;
    while p < patterns.len()
        invariant
            p <= patterns.len(),
            !dest@.contains(':'),
            dc@ == dest@,
            pats == patterns@.map_values(|s: String| s@),
            copy_selection(vol.info.name@, vol.files@, prefix@, pats, p as int) == Ok::<
                Seq<usize>,
                Seq<char>,
            >(selected@),
            forall|i: int| 0 <= i < selected.len() ==> #[trigger] selected@[i] < vol.files.len(),
        decreases patterns.len() - p,
    {
        let m = match_files(vol, prefix, patterns[p].as_str());
        assert(pats[p as int] == patterns@[p as int]@);
        if m.len() == 0 {
            proof {
                lemma_selection_stop(
                    vol.info.name@,
                    vol.files@,
                    prefix@,
                    pats,
                    p + 1,
                    patterns.len() as int,
                );
            }
            return Err(MfsError::NoSuchFile { pattern: patterns[p].clone() });
        }
        proof {
            lemma_matching_bounds(
                vol.files@,
                full_name(vol.info.name@, prefix@, pats[p as int]),
                vol.files.len() as int,
            );
        }
        let ghost start = selected@;
        let mut q: usize = 0;
        while q < m.len()
            invariant
                q <= m.len(),
                forall|i: int| 0 <= i < m.len() ==> #[trigger] m@[i] < vol.files.len(),
                selected@ == add_new_files(vol.files@, start, m@.take(q as int)),
                forall|i: int| 0 <= i < selected.len() ==> #[trigger] selected@[i] < vol.files.len(),
            decreases m.len() - q,
        {
            let x = m[q];
            let mut found = false;
            let mut j: usize = 0;
            while j < selected.len()
                invariant
                    j <= selected.len(),
                    x < vol.files.len(),
                    forall|i: int| 0 <= i < selected.len() ==> #[trigger] selected@[i] < vol.files.len(),
                    found <==> exists|i: int|
                        0 <= i < j && #[trigger] vol.files@[selected@[i] as int].file_num
                            == vol.files@[x as int].file_num,
                decreases selected.len() - j,
            {
                if vol.files[selected[j]].file_num == vol.files[x].file_num {
                    found = true;
                }
                j += 1;
            }
            assert(m@.take(q + 1).drop_last() =~= m@.take(q as int));
            if !found {
                selected.push(x);
            }
            q += 1;
        }
        assert(m@.take(m.len() as int) =~= m@);
        p += 1;
    }
    if selected.len() > 1 && !dest_is_dir {
        return Err(
            MfsError::DestinationNotDir { dest: string_of(dc.as_slice()), count: selected.len() },
        );
    }
    Ok(selected)
}

// ------------------------------------------------------------------ mount

/// The lines `mfsmount` prints about a volume; the backup line only if it
/// was ever backed up.
pub open spec fn mount_report_lines(info: VolumeInfo) -> Seq<Seq<char>> {
    let l1 = "Volume name is \""@ + info.name@ + "\""@;
    let l2 = "Volume was created on "@ + date_long_text(info.create_date);
    let l3 = "Volume was last backed up on "@ + date_long_text(info.backup_date);
    let l4 = "Volume contains "@ + decimal(info.num_files as nat) + " files"@;
    let l5 = "Volume has "@ + decimal(((info.free_blks * info.alloc_blk_size) / 1024) as nat)
        + " KB free ("@ + decimal(info.free_blks as nat) + " of "@ + decimal(
        info.num_alloc_blks as nat,
    ) + " allocation blocks)"@;
    if info.backup_date != 0 {
        seq![l1, l2, l3, l4, l5]
    } else {
        seq![l1, l2, l4, l5]
    }
}

fn push_str(s: &mut String, t: &str)
    ensures
        final(s)@ == old(s)@ + t@,
{
    push_chars(s, chars_of(t).as_slice());
}

/// The lines `mfsmount` prints about a volume.
pub fn mount_report(info: &VolumeInfo) -> (lines: Vec<String>)
    ensures
        lines@.len() == mount_report_lines(*info).len(),
        forall|i: int| 0 <= i < lines@.len() ==> #[trigger] lines@[i]@ == mount_report_lines(*info)[i],
{
    let mut lines: Vec<String> = Vec::new();
    let mut l1 = String::new();
    push_str(&mut l1, "Volume name is \"");
    push_str(&mut l1, info.name.as_str());
    push_str(&mut l1, "\"");
    lines.push(l1);
    let mut l2 = String::new();
    push_str(&mut l2, "Volume was created on ");
    push_str(&mut l2, mac_date_long(info.create_date).as_str());
    lines.push(l2);
    if info.backup_date != 0 {
        let mut l3 = String::new();
        push_str(&mut l3, "Volume was last backed up on ");
        push_str(&mut l3, mac_date_long(info.backup_date).as_str());
        lines.push(l3);
    }
    let mut l4 = String::new();
    push_str(&mut l4, "Volume contains ");
    push_decimal(&mut l4, info.num_files as u64, 0, ' ');
    push_str(&mut l4, " files");
    lines.push(l4);
    let mut l5 = String::new();
    push_str(&mut l5, "Volume has ");
    assert(info.free_blks * info.alloc_blk_size <= 0xFFFF * 0xFFFF_FFFF) by (nonlinear_arith)
        requires
            info.free_blks <= 0xFFFF,
            info.alloc_blk_size <= 0xFFFF_FFFF,
    ;
    push_decimal(&mut l5, (info.free_blks as u64 * info.alloc_blk_size as u64) / 1024, 0, ' ');
    push_str(&mut l5, " KB free (");
    push_decimal(&mut l5, info.free_blks as u64, 0, ' ');
    push_str(&mut l5, " of ");
    push_decimal(&mut l5, info.num_alloc_blks as u64, 0, ' ');
    push_str(&mut l5, " allocation blocks)");
    lines.push(l5);
    assert(lines@.len() == mount_report_lines(*info).len());
    lines
}

/// What `mfscopy` writes in each mode: raw is the data fork as read;
/// text is the data fork with each CR turned into LF and every other byte
/// kept; MacBinary II and BinHex need both forks; the automatic mode is
/// MacBinary II for a file with a resource fork, else text for type
/// `TEXT`, else raw.
pub proof fn lemma_export_modes(vol: Volume, f: FileEntry)
    ensures
        ({
            let rd = spec_read_fork(vol.data@, vol.base as int, vol.info, f, Fork::Data);
            let rr = spec_read_fork(vol.data@, vol.base as int, vol.info, f, Fork::Rsrc);
            &&& spec_export(vol, f, Mode::Raw) == rd
            &&& (spec_export(vol, f, Mode::Text) is Ok <==> rd is Ok)
            &&& (rd matches Ok(d) ==> {
                let t = spec_export(vol, f, Mode::Text)->Ok_0;
                &&& t.len() == d.len()
                &&& forall|i: int|
                    0 <= i < d.len() ==> #[trigger] t[i] == (if d[i] == 13 {
                        10u8
                    } else {
                        d[i]
                    })
            })
            &&& (spec_export(vol, f, Mode::MacBinary) is Ok <==> (rd is Ok && rr is Ok))
            &&& (spec_export(vol, f, Mode::BinHex) is Ok <==> (rd is Ok && rr is Ok))
            &&& spec_export(vol, f, Mode::Auto) == if f.rsrc_len > 0 {
                spec_export(vol, f, Mode::MacBinary)
            } else if f.type_code@ == seq![84u8, 69u8, 88u8, 84u8] {
                spec_export(vol, f, Mode::Text)
            } else {
                spec_export(vol, f, Mode::Raw)
            }
        }),
{
}

} // verus!
