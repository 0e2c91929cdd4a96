use mfsutils::binhex::{encode, ALPHABET};
use mfsutils::mfs::FileEntry;
use mfsutils::util::crc16;

const MARKER: u8 = 0x90;

fn entry(name: &str) -> FileEntry {
    FileEntry {
        locked: false,
        type_code: *b"TEXT",
        creator: *b"ttxt",
        finder_flags: 0,
        location_v: 0,
        location_h: 0,
        folder: 0,
        file_num: 1,
        data_start: 0,
        data_len: 0,
        data_phys: 0,
        rsrc_start: 0,
        rsrc_len: 0,
        rsrc_phys: 0,
        create_date: 0,
        mod_date: 0,
        raw_name: name.as_bytes().to_vec(),
        name: name.into(),
    }
}

// --- decoder (test-only) to verify the encoder round-trips ---

fn unsix(input: &[u8]) -> Vec<u8> {
    let mut bits = 0u32;
    let mut nbits = 0;
    let mut out = Vec::new();
    for &c in input {
        let v = ALPHABET.iter().position(|&a| a == c).expect("bad char") as u32;
        bits = (bits << 6) | v;
        nbits += 6;
        if nbits >= 8 {
            nbits -= 8;
            out.push((bits >> nbits) as u8);
        }
    }
    out
}

fn unrle(input: &[u8]) -> Vec<u8> {
    let mut out = Vec::new();
    let mut i = 0;
    while i < input.len() {
        if input[i] == MARKER {
            let count = input[i + 1];
            if count == 0 {
                out.push(MARKER);
            } else {
                let last = *out.last().expect("run with no previous byte");
                for _ in 1..count {
                    out.push(last);
                }
            }
            i += 2;
        } else {
            out.push(input[i]);
            i += 1;
        }
    }
    out
}

fn decode_stream(out: Vec<u8>) -> Vec<u8> {
    let text = String::from_utf8(out).unwrap();
    let stream: String = text
        .lines()
        .skip(2)
        .collect::<String>()
        .trim_start_matches(':')
        .trim_end_matches(':')
        .to_string();
    unrle(&unsix(stream.as_bytes()))
}

#[test]
fn roundtrip() {
    // Data with a long run to exercise RLE, and 0x90 bytes to
    // exercise marker escaping.
    let data: Vec<u8> = [b"hello \x90\x90 world".to_vec(), vec![0xAA; 40]].concat();
    let rsrc = vec![0u8; 300];
    let out = encode(&entry("My File"), &data, &rsrc);

    let text = String::from_utf8(out).unwrap();
    assert!(text.starts_with("(This file must be converted with BinHex 4.0)"));
    for line in text.lines().skip(2) {
        assert!(line.len() <= 64, "line too long: {}", line.len());
    }
    let stream: String = text
        .lines()
        .skip(2)
        .collect::<String>()
        .trim_start_matches(':')
        .trim_end_matches(':')
        .to_string();
    let raw = unrle(&unsix(stream.as_bytes()));

    // Parse header back.
    let n = raw[0] as usize;
    assert_eq!(&raw[1..1 + n], b"My File");
    let mut p = 1 + n;
    assert_eq!(raw[p], 0);
    p += 1;
    assert_eq!(&raw[p..p + 4], b"TEXT");
    assert_eq!(&raw[p + 4..p + 8], b"ttxt");
    let dlen = u32::from_be_bytes(raw[p + 10..p + 14].try_into().unwrap()) as usize;
    let rlen = u32::from_be_bytes(raw[p + 14..p + 18].try_into().unwrap()) as usize;
    assert_eq!(dlen, data.len());
    assert_eq!(rlen, rsrc.len());
    let hcrc = u16::from_be_bytes(raw[p + 18..p + 20].try_into().unwrap());
    assert_eq!(hcrc, crc16(&raw[..p + 18], 0));
    p += 20;
    assert_eq!(&raw[p..p + dlen], &data[..]);
    let dcrc = u16::from_be_bytes(raw[p + dlen..p + dlen + 2].try_into().unwrap());
    assert_eq!(dcrc, crc16(&data, 0));
    p += dlen + 2;
    assert_eq!(&raw[p..p + rlen], &rsrc[..]);
    let rcrc = u16::from_be_bytes(raw[p + rlen..p + rlen + 2].try_into().unwrap());
    assert_eq!(rcrc, crc16(&rsrc, 0));
    assert_eq!(p + rlen + 2, raw.len());
}

#[test]
fn alphabet_is_64_unique_chars() {
    let mut seen = [false; 256];
    for &c in ALPHABET.iter() {
        assert!(!seen[c as usize], "duplicate char {c}");
        seen[c as usize] = true;
    }
}

#[test]
fn binhex_empty_forks_exact_text() {
    // Name "A", type/creator TEXT/ttxt, empty forks: the whole file.
    let out = encode(&entry("A"), &[], &[]);
    let text = String::from_utf8(out.clone()).unwrap();
    assert!(text.starts_with("(This file must be converted with BinHex 4.0)\n\n:"));
    assert!(text.ends_with(":\n"));
    let raw = decode_stream(out);
    let mut stream = vec![1u8, b'A', 0];
    stream.extend_from_slice(b"TEXTttxt");
    stream.extend_from_slice(&[0, 0, 0, 0, 0, 0, 0, 0, 0, 0]);
    let hcrc = crc16(&stream, 0);
    stream.extend_from_slice(&hcrc.to_be_bytes());
    stream.extend_from_slice(&[0, 0, 0, 0]); // two empty forks' CRCs
    assert_eq!(raw, stream);
}

#[test]
fn binhex_exactly_full_lines_close_with_newline() {
    // Whatever the length, no encoded line is longer than 64 columns and
    // the closing colon stands on a line of its own or after the data.
    for len in 0..200usize {
        let data: Vec<u8> = (0..len).map(|i| (i * 7 % 251) as u8).collect();
        let out = encode(&entry("Len"), &data, &[]);
        let text = String::from_utf8(out.clone()).unwrap();
        for line in text.lines().skip(2) {
            assert!(line.len() <= 64);
        }
        let raw = decode_stream(out);
        let n = raw[0] as usize;
        let p = 1 + n + 1 + 8 + 2 + 8 + 2;
        assert_eq!(&raw[p..p + len], &data[..]);
    }
}

#[test]
fn binhex_long_name_is_cut_to_63_bytes() {
    let name = "N".repeat(80);
    let raw = decode_stream(encode(&entry(&name), &[], &[]));
    assert_eq!(raw[0], 63);
    assert_eq!(&raw[1..64], "N".repeat(63).as_bytes());
}

#[test]
fn binhex_marker_runs_escape_and_restore() {
    let data = vec![0x90u8; 300];
    let raw = decode_stream(encode(&entry("M"), &data, &[]));
    let p = 1 + 1 + 1 + 8 + 2 + 8 + 2;
    assert_eq!(&raw[p..p + 300], &data[..]);
}
