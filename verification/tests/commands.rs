//! The command logic against a synthetic MFS image with pseudo-folders.

use mfsutils::commands::{
    effective_mode, export_bytes, match_files, mount_report, output_file_name, parse_copy_args,
    parse_ls_args, plan_copy, pwd_line, resolve_prefix, Mode,
};
use mfsutils::error::MfsError;
use mfsutils::listing::{item_name, level_items, ls_lines, Item};
use mfsutils::mfs::{Fork, Volume};
use mfsutils::mount::{parse_state, MountState};

const SECTOR: usize = 512;
const ABS: usize = 1024;
const DIR_START: usize = 4;
const DIR_LEN: usize = 2;
const ALLOC_START: usize = 8;
const NUM_ALLOC: usize = 100;

fn be16(buf: &mut [u8], off: usize, v: u16) {
    buf[off..off + 2].copy_from_slice(&v.to_be_bytes());
}
fn be32(buf: &mut [u8], off: usize, v: u32) {
    buf[off..off + 4].copy_from_slice(&v.to_be_bytes());
}

fn set_map(img: &mut [u8], blk: usize, val: u16) {
    let idx = blk - 2;
    let off = 2 * SECTOR + 0x40 + (idx / 2) * 3;
    if idx % 2 == 0 {
        img[off] = (val >> 4) as u8;
        img[off + 1] = (img[off + 1] & 0x0F) | ((val & 0x0F) << 4) as u8;
    } else {
        img[off + 1] = (img[off + 1] & 0xF0) | ((val >> 8) & 0x0F) as u8;
        img[off + 2] = (val & 0xFF) as u8;
    }
}

struct Spec<'a> {
    name: &'a str,
    type_code: &'a [u8; 4],
    data: (u16, u32),
    rsrc: (u16, u32),
    mod_date: u32,
    locked: bool,
}

fn add_entries(img: &mut [u8], entries: &[Spec]) {
    let mut sector = DIR_START;
    let mut used = 0;
    for (n, s) in entries.iter().enumerate() {
        let mut esize = 0x33 + s.name.len();
        esize += esize & 1;
        if used + esize > SECTOR {
            sector += 1;
            used = 0;
        }
        let off = sector * SECTOR + used;
        let e = &mut img[off..off + esize];
        e[0] = 0x80 | (s.locked as u8);
        e[0x02..0x06].copy_from_slice(s.type_code);
        e[0x06..0x0A].copy_from_slice(b"UNIT");
        be32(e, 0x12, n as u32 + 1);
        be16(e, 0x16, s.data.0);
        be32(e, 0x18, s.data.1);
        be16(e, 0x20, s.rsrc.0);
        be32(e, 0x22, s.rsrc.1);
        be32(e, 0x2E, s.mod_date);
        e[0x32] = s.name.len() as u8;
        e[0x33..0x33 + s.name.len()].copy_from_slice(s.name.as_bytes());
        used += esize;
    }
}

fn mdb(img: &mut [u8], base: usize) {
    let m = base + 2 * SECTOR;
    be16(img, m, 0xD2D7);
    be32(img, m + 0x02, 0x11111111);
    be16(img, m + 0x0C, 6);
    be16(img, m + 0x0E, DIR_START as u16);
    be16(img, m + 0x10, DIR_LEN as u16);
    be16(img, m + 0x12, NUM_ALLOC as u16);
    be32(img, m + 0x14, ABS as u32);
    be16(img, m + 0x1C, ALLOC_START as u16);
    be16(img, m + 0x22, 90);
    let name = b"Test Vol";
    img[m + 0x24] = name.len() as u8;
    img[m + 0x25..m + 0x25 + name.len()].copy_from_slice(name);
}

fn fill_block(img: &mut [u8], blk: usize, bytes: &[u8]) {
    let off = ALLOC_START * SECTOR + (blk - 2) * ABS;
    img[off..off + bytes.len()].copy_from_slice(bytes);
}

fn spec<'a>(name: &'a str, t: &'a [u8; 4], data: (u16, u32), rsrc: (u16, u32)) -> Spec<'a> {
    Spec { name, type_code: t, data, rsrc, mod_date: 0, locked: false }
}

/// "Top" (TEXT, data "a\rb\r" in block 2), "Folder:One" (rsrc in 3),
/// "folder:Two", "Folder:Sub:Three", "Other:Four", "Bin" (data in 4).
fn build() -> Vec<u8> {
    let mut img = vec![0u8; 200 * 1024];
    set_map(&mut img, 2, 1);
    set_map(&mut img, 3, 1);
    set_map(&mut img, 4, 1);
    fill_block(&mut img, 2, b"a\rb\r");
    fill_block(&mut img, 3, b"RSRC");
    fill_block(&mut img, 4, b"\x00\x01\r");
    let mut top = spec("Top", b"TEXT", (2, 4), (0, 0));
    top.mod_date = 2536485405;
    top.locked = true;
    add_entries(
        &mut img,
        &[
            top,
            spec("Folder:One", b"APPL", (0, 0), (3, 4)),
            spec("folder:Two", b"TEXT", (0, 0), (0, 0)),
            spec("Folder:Sub:Three", b"TEXT", (0, 0), (0, 0)),
            spec("Other:Four", b"TEXT", (0, 0), (0, 0)),
            spec("Bin", b"BINA", (4, 3), (0, 0)),
        ],
    );
    mdb(&mut img, 0);
    img
}

fn vol() -> Volume {
    Volume::from_bytes(build()).unwrap()
}

fn strings(v: &[&str]) -> Vec<String> {
    v.iter().map(|s| s.to_string()).collect()
}

#[test]
fn level_items_root_and_folder() {
    let v = vol();
    let items = level_items(&v, "");
    let names: Vec<String> = items.iter().map(item_name).collect();
    assert_eq!(names, ["Top", "Bin", "Folder", "Other"]);
    match &items[2] {
        Item::Folder { name, count } => {
            assert_eq!(name, "Folder");
            assert_eq!(*count, 3);
        }
        _ => panic!("expected a folder"),
    }
    let items = level_items(&v, "Folder");
    let names: Vec<String> = items.iter().map(item_name).collect();
    assert_eq!(names, ["One", "Two", "Sub"]);
    match &items[0] {
        Item::File { index, .. } => assert_eq!(*index, 1),
        _ => panic!("expected a file"),
    }
}

#[test]
fn ls_lines_short_long_and_patterns() {
    let v = vol();
    assert_eq!(ls_lines(&v, "", false, &[]), ["Bin", "Folder:", "Other:", "Top"]);
    assert_eq!(ls_lines(&v, "", false, &strings(&["f*", "t?p"])), ["Folder:", "Top"]);
    assert_eq!(ls_lines(&v, "", false, &strings(&["other:"])), ["Other:"]);
    assert_eq!(ls_lines(&v, "folder", false, &[]), ["One", "Sub:", "Two"]);
    let long = ls_lines(&v, "", true, &strings(&["top", "folder"]));
    assert_eq!(
        long,
        [
            "d                    3                             Folder:",
            "F  TEXT/UNIT         0         4 May 17 1984 11:16 Top",
        ]
    );
    let long = ls_lines(&v, "Folder", true, &strings(&["one"]));
    assert_eq!(long, ["f  APPL/UNIT         4         0                   One"]);
}

#[test]
fn resolve_prefix_forms() {
    let v = vol();
    assert_eq!(resolve_prefix(&v, "", "folder").unwrap(), "Folder");
    assert_eq!(resolve_prefix(&v, "", "FOLDER:sub:").unwrap(), "Folder:Sub");
    assert_eq!(resolve_prefix(&v, "Folder", "sub").unwrap(), "Folder:Sub");
    assert_eq!(resolve_prefix(&v, "Folder", ":Other").unwrap(), "Other");
    assert_eq!(resolve_prefix(&v, "Folder", "test vol:Other").unwrap(), "Other");
    assert_eq!(resolve_prefix(&v, "Folder:Sub", "..").unwrap(), "Folder");
    assert_eq!(resolve_prefix(&v, "Folder", "..").unwrap(), "");
    assert_eq!(resolve_prefix(&v, "Folder", ":").unwrap(), "");
    // Trailing colons go first, so a bare volume name reads as a folder.
    match resolve_prefix(&v, "Folder", "Test Vol:") {
        Err(MfsError::NoSuchFolder { path }) => assert_eq!(path, "Folder:Test Vol"),
        _ => panic!("expected NoSuchFolder"),
    }
    match resolve_prefix(&v, "Folder", "Nope") {
        Err(MfsError::NoSuchFolder { path }) => assert_eq!(path, "Folder:Nope"),
        _ => panic!("expected NoSuchFolder"),
    }
    // A file is not a folder.
    assert!(resolve_prefix(&v, "", "Top").is_err());
}

#[test]
fn match_files_relative_and_absolute() {
    let v = vol();
    assert_eq!(match_files(&v, "", "*o*"), [0, 1, 2, 3, 4]);
    assert_eq!(match_files(&v, "Folder", "*"), [1, 2, 3]);
    assert_eq!(match_files(&v, "Folder", ":b?n"), [5]);
    assert_eq!(match_files(&v, "Folder", "Test Vol:top"), [0]);
    assert!(match_files(&v, "", "zzz").is_empty());
}

#[test]
fn plan_copy_rules() {
    let v = vol();
    assert_eq!(plan_copy(&v, "", &strings(&["top", "T*", "bin"]), "out", true).unwrap(), [0, 5]);
    assert_eq!(plan_copy(&v, "", &strings(&["top"]), "out.txt", false).unwrap(), [0]);
    match plan_copy(&v, "", &strings(&["top", "bin"]), "file", false) {
        Err(MfsError::DestinationNotDir { dest, count }) => {
            assert_eq!(dest, "file");
            assert_eq!(count, 2);
        }
        _ => panic!("expected DestinationNotDir"),
    }
    match plan_copy(&v, "", &strings(&["top", "nothing*"]), "out", true) {
        Err(MfsError::NoSuchFile { pattern }) => assert_eq!(pattern, "nothing*"),
        _ => panic!("expected NoSuchFile"),
    }
    match plan_copy(&v, "", &strings(&["top"]), "Vol:x", true) {
        Err(MfsError::DestinationIsMfs { dest }) => assert_eq!(dest, "Vol:x"),
        _ => panic!("expected DestinationIsMfs"),
    }
}

#[test]
fn plan_copy_names_each_file_once() {
    let v = vol();
    assert_eq!(plan_copy(&v, "", &strings(&["top", "top", "TOP"]), "out", false).unwrap(), [0]);
    let all = plan_copy(&v, "", &strings(&["*"]), "out", true).unwrap();
    assert_eq!(plan_copy(&v, "", &strings(&["*", "top"]), "out", true).unwrap(), all);
}

#[test]
fn export_modes() {
    let v = vol();
    let top = &v.files[0];
    assert!(effective_mode(top, Mode::Auto) == Mode::Text);
    assert!(effective_mode(&v.files[1], Mode::Auto) == Mode::MacBinary);
    assert!(effective_mode(&v.files[5], Mode::Auto) == Mode::Raw);
    assert!(effective_mode(&v.files[5], Mode::BinHex) == Mode::BinHex);
    assert_eq!(export_bytes(&v, top, Mode::Auto).unwrap(), b"a\nb\n");
    assert_eq!(export_bytes(&v, top, Mode::Raw).unwrap(), b"a\rb\r");
    assert_eq!(export_bytes(&v, &v.files[5], Mode::Text).unwrap(), b"\x00\x01\n");
    let mb = export_bytes(&v, &v.files[1], Mode::Auto).unwrap();
    assert_eq!(mb.len(), 256);
    assert_eq!(&mb[128..132], b"RSRC");
    let hqx = export_bytes(&v, top, Mode::BinHex).unwrap();
    assert!(hqx.starts_with(b"(This file must be converted with BinHex 4.0)\n\n:"));
}

#[test]
fn output_names() {
    let v = vol();
    assert_eq!(output_file_name(&v.files[0], Mode::Auto), "Top.txt");
    assert_eq!(output_file_name(&v.files[1], Mode::Auto), "One.bin");
    assert_eq!(output_file_name(&v.files[3], Mode::BinHex), "Three.hqx");
    assert_eq!(output_file_name(&v.files[5], Mode::Auto), "Bin");
    let mut f = v.files[5].clone();
    f.name = "Dir:a/b%".to_string();
    assert_eq!(output_file_name(&f, Mode::Raw), "a%2fb%25");
    assert_eq!(Mode::Text.extension(), ".txt");
    assert_eq!(Mode::Auto.extension(), "");
}

#[test]
fn mount_report_and_pwd() {
    let v = vol();
    assert_eq!(
        mount_report(&v.info),
        [
            "Volume name is \"Test Vol\"",
            "Volume was created on Mon Jan 27 00:25:53 1913",
            "Volume contains 6 files",
            "Volume has 90 KB free (90 of 100 allocation blocks)",
        ]
    );
    assert_eq!(pwd_line("Test Vol", ""), "Test Vol:");
    assert_eq!(pwd_line("Test Vol", "Folder:Sub"), "Test Vol:Folder:Sub:");
}

#[test]
fn mount_report_backup_line() {
    let mut v = vol();
    v.info.backup_date = 2536485405;
    let lines = mount_report(&v.info);
    assert_eq!(lines.len(), 5);
    assert_eq!(lines[2], "Volume was last backed up on Thu May 17 11:16:45 1984");
}

#[test]
fn mount_state_text_roundtrip() {
    let st = MountState { image: "/img/disk.dsk".to_string(), prefix: "Folder:Sub".to_string() };
    let text = st.to_text();
    assert_eq!(text, "/img/disk.dsk\nFolder:Sub\n");
    let back = parse_state(&text).unwrap();
    assert_eq!(back.image, st.image);
    assert_eq!(back.prefix, st.prefix);
    let root = parse_state("/x\n\n").unwrap();
    assert_eq!(root.prefix, "");
    let no_prefix = parse_state("/x").unwrap();
    assert_eq!(no_prefix.image, "/x");
    assert_eq!(no_prefix.prefix, "");
    let crlf = parse_state("/x\r\npre\r\n").unwrap();
    assert_eq!(crlf.image, "/x");
    assert_eq!(crlf.prefix, "pre");
    assert!(matches!(parse_state(""), Err(MfsError::StateCorrupt)));
    assert!(matches!(parse_state("\nprefix\n"), Err(MfsError::StateCorrupt)));
}

#[test]
fn argument_parsing() {
    let (long, pats) = parse_ls_args(&strings(&["-l", "a*", "b"])).unwrap();
    assert!(long);
    assert_eq!(pats, ["a*", "b"]);
    assert!(matches!(parse_ls_args(&strings(&["-x"])), Err(MfsError::LsUsage)));
    let (mode, srcs, dest) = parse_copy_args(&strings(&["-m", "a", "-t", "b", "out"])).unwrap();
    assert!(mode == Mode::Text);
    assert_eq!(srcs, ["a", "b"]);
    assert_eq!(dest, "out");
    let (mode, srcs, dest) = parse_copy_args(&strings(&["x", "-"])).unwrap();
    assert!(mode == Mode::Auto);
    assert_eq!(srcs, ["x"]);
    assert_eq!(dest, "-");
    assert!(matches!(parse_copy_args(&strings(&["only"])), Err(MfsError::CopyUsage)));
    match parse_copy_args(&strings(&["-q", "a", "b"])) {
        Err(MfsError::UnknownOption { option }) => assert_eq!(option, "-q"),
        _ => panic!("expected UnknownOption"),
    }
}

#[test]
fn diskcopy_container_is_found() {
    let mut img = vec![0u8; 84];
    img[0x52] = 0x01;
    img[0x53] = 0x00;
    img.extend_from_slice(&build());
    let v = Volume::from_bytes(img).unwrap();
    assert_eq!(v.base, 84);
    // The directory inside the container is read relative to its start,
    // so the entries are the ones of the raw image shifted by 84 bytes.
    assert_eq!(v.info.name, "Test Vol");
}

#[test]
fn volume_errors() {
    let mut hfs = vec![0u8; 4096];
    hfs[1024] = 0x42;
    hfs[1025] = 0x44;
    assert!(matches!(Volume::from_bytes(hfs), Err(MfsError::HfsVolume)));
    assert!(matches!(Volume::from_bytes(vec![0u8; 100]), Err(MfsError::NoSignature)));
    let mut bad = build();
    bad[2 * SECTOR + 0x14..2 * SECTOR + 0x18].copy_from_slice(&1000u32.to_be_bytes());
    assert!(matches!(Volume::from_bytes(bad), Err(MfsError::BadAllocBlockSize(1000))));
    let mut zero = build();
    zero[2 * SECTOR + 0x14..2 * SECTOR + 0x18].copy_from_slice(&0u32.to_be_bytes());
    assert!(matches!(Volume::from_bytes(zero), Err(MfsError::BadAllocBlockSize(0))));
    let mut past = build();
    past[2 * SECTOR + 0x0E..2 * SECTOR + 0x10].copy_from_slice(&1000u16.to_be_bytes());
    assert!(matches!(Volume::from_bytes(past), Err(MfsError::DirectoryPastEnd)));
}

#[test]
fn fork_chain_errors() {
    let v = vol();
    let mut f = v.files[5].clone();
    f.data_start = 1;
    assert!(matches!(
        v.read_fork(&f, Fork::Data),
        Err(MfsError::NoStartBlock { len: 3, .. })
    ));
    f.data_start = 200;
    assert!(matches!(v.read_fork(&f, Fork::Data), Err(MfsError::ChainLeavesVolume { .. })));
    // Block 2 is marked LAST after 1024 bytes, but 2000 are expected.
    f.data_start = 2;
    f.data_len = 2000;
    match v.read_fork(&f, Fork::Data) {
        Err(MfsError::ChainEnded { got, expected, .. }) => {
            assert_eq!(got, 1024);
            assert_eq!(expected, 2000);
        }
        _ => panic!("expected ChainEnded"),
    }
    // Block 5 is free in the map.
    f.data_start = 5;
    assert!(matches!(v.read_fork(&f, Fork::Data), Err(MfsError::ChainFree { .. })));
    // A block that points to itself.
    let mut img = build();
    set_map(&mut img, 6, 6);
    let v2 = Volume::from_bytes(img).unwrap();
    f.data_start = 6;
    f.data_len = 1_000_000;
    assert!(matches!(v2.read_fork(&f, Fork::Data), Err(MfsError::ChainLoops { .. })));
    // An image cut short before the block.
    let mut short = build();
    short.truncate(ALLOC_START * SECTOR + 2 * ABS + 10);
    let v3 = Volume::from_bytes(short).unwrap();
    f.data_start = 4;
    f.data_len = 10;
    match v3.read_fork(&f, Fork::Data) {
        Err(MfsError::BlockPastEnd { blk, .. }) => assert_eq!(blk, 4),
        _ => panic!("expected BlockPastEnd"),
    }
}
