use mfsutils::macbinary::encode;
use mfsutils::mfs::FileEntry;
use mfsutils::util::crc16;

fn entry() -> FileEntry {
    FileEntry {
        locked: false,
        type_code: *b"APPL",
        creator: *b"DONN",
        finder_flags: 0x2100,
        location_v: 10,
        location_h: 20,
        folder: 0,
        file_num: 7,
        data_start: 0,
        data_len: 3,
        data_phys: 1024,
        rsrc_start: 0,
        rsrc_len: 5,
        rsrc_phys: 1024,
        create_date: 0x12345678,
        mod_date: 0x23456789,
        raw_name: b"Test File".to_vec(),
        name: "Test File".into(),
    }
}

#[test]
fn header_layout_and_crc() {
    let out = encode(&entry(), b"abc", b"ryryr");
    assert_eq!(out.len(), 128 + 128 + 128); // header + 1 data + 1 rsrc chunk
    assert_eq!(out[0], 0);
    assert_eq!(out[1], 9);
    assert_eq!(&out[2..11], b"Test File");
    assert_eq!(&out[65..69], b"APPL");
    assert_eq!(&out[69..73], b"DONN");
    assert_eq!(out[73], 0x21);
    assert_eq!(out[101], 0x00);
    assert_eq!(&out[83..87], &3u32.to_be_bytes());
    assert_eq!(&out[87..91], &5u32.to_be_bytes());
    assert_eq!(out[122], 129);
    let crc = u16::from_be_bytes([out[124], out[125]]);
    assert_eq!(crc, crc16(&out[..124], 0));
    assert_eq!(&out[128..131], b"abc");
    assert_eq!(&out[256..261], b"ryryr");
}

#[test]
fn macbinary_other_header_fields() {
    let mut f = entry();
    f.locked = true;
    f.location_v = -2;
    f.folder = 0x0102;
    f.finder_flags = 0x21AB;
    let out = encode(&f, b"", b"");
    assert_eq!(out.len(), 128); // empty forks add nothing
    assert_eq!(out[74], 0);
    assert_eq!(&out[75..77], &[0xFF, 0xFE]);
    assert_eq!(&out[77..79], &[0, 20]);
    assert_eq!(&out[79..81], &[1, 2]);
    assert_eq!(out[81], 1);
    assert_eq!(&out[91..95], &0x12345678u32.to_be_bytes());
    assert_eq!(&out[95..99], &0x23456789u32.to_be_bytes());
    assert_eq!(out[101], 0xAB);
    assert_eq!(out[123], 129);
    assert_eq!(&out[126..128], &[0, 0]);
    // bytes 11..65 after the name are zero
    assert!(out[11..65].iter().all(|&b| b == 0));
}

#[test]
fn macbinary_exact_block_sizes_need_no_padding() {
    let data = vec![7u8; 256];
    let rsrc = vec![9u8; 129];
    let out = encode(&entry(), &data, &rsrc);
    assert_eq!(out.len(), 128 + 256 + 256);
    assert_eq!(&out[128..384], &data[..]);
    assert_eq!(&out[384..513], &rsrc[..]);
    assert!(out[513..].iter().all(|&b| b == 0));
}

#[test]
fn macbinary_long_name_cut_to_63() {
    let mut f = entry();
    f.raw_name = vec![b'x'; 70];
    let out = encode(&f, b"", b"");
    assert_eq!(out[1], 63);
    assert!(out[2..65].iter().all(|&b| b == b'x'));
    assert_eq!(&out[65..69], b"APPL");
}
