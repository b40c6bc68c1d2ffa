use std::io::Write;

use kiwad::format::ParseError;
use kiwad::library::Library;
use kiwad::payload::{read_payload, ExtractError};
use kiwad::wad::WadRework;

struct Rec<'n> {
    offset: u32,
    size: u32,
    zip_size: u32,
    flag: u8,
    crc: u32,
    name: &'n [u8],
}

fn header(version: u32, count: u32) -> Vec<u8> {
    let mut b = b"KIWAD".to_vec();
    b.extend_from_slice(&version.to_le_bytes());
    b.extend_from_slice(&count.to_le_bytes());
    if version >= 2 {
        b.push(0xAB);
    }
    b
}

fn push_record(b: &mut Vec<u8>, r: &Rec) {
    b.extend_from_slice(&r.offset.to_le_bytes());
    b.extend_from_slice(&r.size.to_le_bytes());
    b.extend_from_slice(&r.zip_size.to_le_bytes());
    b.push(r.flag);
    b.extend_from_slice(&r.crc.to_le_bytes());
    b.extend_from_slice(&(r.name.len() as i32).to_le_bytes());
    b.extend_from_slice(r.name);
}

fn table_len(recs: &[Rec]) -> u32 {
    recs.iter().map(|r| 21 + r.name.len() as u32).sum()
}

/// An archive whose payloads follow the table; each record's offset is
/// shifted by the start of the payload area.
fn archive(version: u32, recs: &[Rec], payloads: &[u8]) -> Vec<u8> {
    let mut b = header(version, recs.len() as u32);
    let base = b.len() as u32 + table_len(recs);
    for r in recs {
        let shifted = Rec { offset: r.offset + base, ..*r };
        push_record(&mut b, &shifted);
    }
    b.extend_from_slice(payloads);
    b
}

fn deflate(plain: &[u8]) -> Vec<u8> {
    let mut enc = flate2::write::DeflateEncoder::new(Vec::new(), flate2::Compression::default());
    enc.write_all(plain).unwrap();
    enc.finish().unwrap()
}

fn rec(offset: u32, size: u32, zip_size: u32, flag: u8, name: &[u8]) -> Rec<'_> {
    Rec { offset, size, zip_size, flag, crc: 0xDEADBEEF, name }
}

#[test]
fn entry_count_matches_header() {
    let recs = [
        rec(0, 1, 1, 0, b"a.txt"),
        rec(1, 1, 1, 0, b"b/c.txt"),
        rec(2, 1, 1, 0, b"d.bin"),
    ];
    let buf = archive(1, &recs, b"xyz");
    let lib = Library::new(&buf).unwrap();
    assert_eq!(lib.file_count, 3);
    assert_eq!(lib.files.len(), 3);
    let wad = WadRework::new(&buf).unwrap();
    assert_eq!(wad.file_count, 3);
    assert_eq!(wad.files.len(), 3);
    assert_eq!(wad.version, 1);
}

#[test]
fn empty_table_parses() {
    let buf = header(1, 0);
    let lib = Library::new(&buf).unwrap();
    assert_eq!(lib.file_count, 0);
    assert!(lib.files.is_empty());
}

#[test]
fn fields_are_decoded_little_endian() {
    let mut buf = header(1, 1);
    push_record(
        &mut buf,
        &Rec { offset: 0x01020304, size: 0x0A0B0C0D, zip_size: 7, flag: 1, crc: 0xCAFEBABE, name: b"dir/file.dat" },
    );
    let lib = Library::new(&buf).unwrap();
    let r = &lib.files[0];
    assert_eq!(r.offset, 0x01020304);
    assert_eq!(r.size, 0x0A0B0C0D);
    assert_eq!(r.zip_size, 7);
    assert!(r.zipped);
    assert_eq!(r.crc32, 0xCAFEBABE);
    assert_eq!(r.file_name, "dir/file.dat");
}

#[test]
fn audio_names_are_never_compressed() {
    for ext in ["wav", "ogg", "mp3"] {
        for flag in [0u8, 1u8] {
            let name = format!("music/track.{ext}");
            let recs = [rec(0, 1, 1, flag, name.as_bytes())];
            let buf = archive(1, &recs, b"z");
            let lib = Library::new(&buf).unwrap();
            assert!(!lib.files[0].zipped, "{name} with flag {flag}");
        }
    }
    let recs = [rec(0, 1, 1, 1, b"music/track.wavx")];
    let buf = archive(1, &recs, b"z");
    assert!(Library::new(&buf).unwrap().files[0].zipped);
}

#[test]
fn nonzero_flag_byte_means_compressed() {
    let recs = [rec(0, 1, 1, 7, b"a.xml"), rec(0, 1, 1, 0, b"b.xml")];
    let buf = archive(1, &recs, b"z");
    let lib = Library::new(&buf).unwrap();
    assert!(lib.files[0].zipped);
    assert!(!lib.files[1].zipped);
}

#[test]
fn deflated_payloads_round_trip() {
    let plains: [&[u8]; 3] = [b"hello world, hello world, hello world", b"x", b"Some longer text\nwith lines\n"];
    let mut payloads = Vec::new();
    let mut names = Vec::new();
    let mut spans = Vec::new();
    for (i, p) in plains.iter().enumerate() {
        let z = deflate(p);
        spans.push((payloads.len() as u32, p.len() as u32, z.len() as u32));
        payloads.extend_from_slice(&z);
        names.push(format!("data/file{i}.txt"));
    }
    let recs: Vec<Rec> = spans
        .iter()
        .zip(names.iter())
        .map(|(&(o, s, z), n)| rec(o, s, z, 1, n.as_bytes()))
        .collect();
    let buf = archive(2, &recs, &payloads);
    let wad = WadRework::new(&buf).unwrap();
    for (i, p) in plains.iter().enumerate() {
        assert_eq!(wad.read_file(&names[i]).unwrap(), p.to_vec());
    }
    let lib = Library::new(&buf).unwrap();
    for (i, p) in plains.iter().enumerate() {
        assert_eq!(lib.read_record(i).unwrap(), p.to_vec());
    }
}

#[test]
fn zero_bytes_compressed_payload_is_empty() {
    let recs = [rec(0, 100, 6, 1, b"zeros.bin"), rec(6, 100, 0, 1, b"nothing.bin")];
    let buf = archive(1, &recs, &[0u8; 6]);
    let wad = WadRework::new(&buf).unwrap();
    assert_eq!(wad.read_file("zeros.bin").unwrap(), Vec::<u8>::new());
    assert_eq!(wad.read_file("nothing.bin").unwrap(), Vec::<u8>::new());
}

#[test]
fn uncompressed_payload_is_verbatim() {
    let recs = [rec(2, 3, 99, 0, b"plain.txt")];
    let buf = archive(1, &recs, b"..abc..");
    let wad = WadRework::new(&buf).unwrap();
    assert_eq!(wad.read_file("plain.txt").unwrap(), b"abc".to_vec());
}

#[test]
fn reading_twice_gives_the_same_bytes() {
    let z = deflate(b"same every time");
    let recs = [rec(0, 15, z.len() as u32, 1, b"a/b.txt")];
    let buf = archive(1, &recs, &z);
    let wad = WadRework::new(&buf).unwrap();
    let first = wad.read_file("a/b.txt").unwrap();
    let second = wad.read_file("a/b.txt").unwrap();
    assert_eq!(first, second);
    assert_eq!(first, b"same every time".to_vec());
}

#[test]
fn altered_signature_is_malformed() {
    let recs = [rec(0, 1, 1, 0, b"a.txt")];
    let good = archive(1, &recs, b"q");
    for i in 0..5 {
        let mut bad = good.clone();
        bad[i] ^= 0x20;
        assert_eq!(Library::new(&bad).err(), Some(ParseError::MalformedHeader));
        assert_eq!(WadRework::new(&bad).err(), Some(ParseError::MalformedHeader));
    }
}

#[test]
fn truncated_table_is_truncated_record() {
    let recs = [rec(0, 1, 1, 0, b"first.txt"), rec(1, 1, 1, 0, b"second.txt")];
    let buf = archive(2, &recs, b"qq");
    let table_end = header(2, 2).len() + table_len(&recs) as usize;
    for cut in 0..table_end {
        assert_eq!(Library::new(&buf[..cut]).err(), Some(ParseError::TruncatedRecord), "cut at {cut}");
        assert_eq!(WadRework::new(&buf[..cut]).err(), Some(ParseError::TruncatedRecord), "cut at {cut}");
    }
    assert!(Library::new(&buf[..table_end]).is_ok());
}

#[test]
fn negative_name_length_is_truncated_record() {
    let mut buf = header(1, 1);
    push_record(&mut buf, &rec(0, 0, 0, 0, b""));
    let at = buf.len() - 4;
    buf[at..].copy_from_slice(&(-1i32).to_le_bytes());
    buf.extend_from_slice(&[b'a'; 64]);
    assert_eq!(Library::new(&buf).err(), Some(ParseError::TruncatedRecord));
}

#[test]
fn invalid_utf8_name_is_refused() {
    let recs = [rec(0, 1, 1, 0, &[b'a', 0xFF, b'b'])];
    let buf = archive(1, &recs, b"q");
    assert_eq!(Library::new(&buf).err(), Some(ParseError::InvalidName));
}

#[test]
fn nul_bytes_are_stripped_from_names() {
    let recs = [rec(0, 1, 1, 1, b"snd/a\0.ogg\0\0")];
    let buf = archive(1, &recs, b"q");
    let lib = Library::new(&buf).unwrap();
    assert_eq!(lib.files[0].file_name, "snd/a.ogg");
    assert!(!lib.files[0].zipped);
}

#[test]
fn reserved_byte_depends_on_version() {
    let recs = [rec(0, 2, 2, 0, b"v.txt")];
    let v1 = archive(1, &recs, b"hi");
    let v2 = archive(2, &recs, b"hi");
    assert_eq!(v2.len(), v1.len() + 1);
    assert_eq!(Library::new(&v1).unwrap().files[0].file_name, "v.txt");
    let w = WadRework::new(&v2).unwrap();
    assert_eq!(w.version, 2);
    assert_eq!(w.read_file("v.txt").unwrap(), b"hi".to_vec());
}

#[test]
fn mismarked_audio_returns_stored_bytes() {
    let z = deflate(b"hello");
    assert!(z.len() >= 5);
    let recs = [rec(0, 5, z.len() as u32, 1, b"sound/test.ogg")];
    let buf = archive(1, &recs, &z);
    let wad = WadRework::new(&buf).unwrap();
    let r = &wad.files[0];
    assert_eq!(r.file_name, "sound/test.ogg");
    assert!(!r.zipped);
    assert_eq!(wad.read_file("sound/test.ogg").unwrap(), z[..5].to_vec());
}

#[test]
fn duplicate_names_last_wins_when_keyed() {
    let recs = [rec(0, 3, 3, 0, b"dup.txt"), rec(3, 3, 3, 0, b"other.txt"), rec(6, 3, 3, 0, b"dup.txt")];
    let buf = archive(1, &recs, b"oneTWOnew");
    let wad = WadRework::new(&buf).unwrap();
    assert_eq!(wad.file_count, 3);
    assert_eq!(wad.files.len(), 2);
    assert_eq!(wad.read_file("dup.txt").unwrap(), b"new".to_vec());
    assert_eq!(wad.read_file("other.txt").unwrap(), b"TWO".to_vec());
}

#[test]
fn duplicate_names_kept_in_order_when_positional() {
    let recs = [rec(0, 3, 3, 0, b"dup.txt"), rec(3, 3, 3, 0, b"dup.txt")];
    let buf = archive(1, &recs, b"oldnew");
    let lib = Library::new(&buf).unwrap();
    assert_eq!(lib.files.len(), 2);
    assert_eq!(lib.read_record(0).unwrap(), b"old".to_vec());
    assert_eq!(lib.read_record(1).unwrap(), b"new".to_vec());
}

#[test]
fn missing_name_is_not_found() {
    let recs = [rec(0, 1, 1, 0, b"here.txt")];
    let buf = archive(1, &recs, b"q");
    let wad = WadRework::new(&buf).unwrap();
    assert_eq!(wad.read_file("there.txt"), Err(ExtractError::NotFound));
}

#[test]
fn range_past_buffer_is_out_of_bounds() {
    let recs = [rec(0, 10, 2, 0, b"long.txt"), rec(0, 1, 50, 1, b"long.bin"), rec(0, 2, 2, 0, b"ok.txt")];
    let buf = archive(1, &recs, b"abcd");
    let wad = WadRework::new(&buf).unwrap();
    assert_eq!(wad.read_file("long.txt"), Err(ExtractError::OutOfBoundsRead));
    assert_eq!(wad.read_file("long.bin"), Err(ExtractError::OutOfBoundsRead));
    assert_eq!(wad.read_file("ok.txt").unwrap(), b"ab".to_vec());
    assert_eq!(read_payload(&buf, u32::MAX, 1, 1, false), Err(ExtractError::OutOfBoundsRead));
}

#[test]
fn corrupt_stream_fails_to_decompress() {
    let recs = [rec(0, 10, 4, 1, b"bad.bin")];
    let buf = archive(1, &recs, &[0xFF, 0xFF, 0xFF, 0xFF]);
    let wad = WadRework::new(&buf).unwrap();
    assert_eq!(wad.read_file("bad.bin"), Err(ExtractError::DecompressionFailed));
}

#[test]
fn inflation_changes_the_bytes() {
    let z = deflate(b"abcabcabcabcabcabc");
    let out = read_payload(&z, 0, 18, z.len() as u32, true).unwrap();
    assert_eq!(out, b"abcabcabcabcabcabc".to_vec());
    assert_ne!(out, z);
}

#[test]
fn magic_header_check() {
    assert!(WadRework::is_magic_header(b"KIWAD"));
    assert!(Library::is_magic_header(b"KIWAD"));
    assert!(!WadRework::is_magic_header(b"KIWAX"));
    assert!(!Library::is_magic_header(b"KIWA"));
    assert!(!Library::is_magic_header(b"KIWADD"));
}

#[test]
fn empty_check() {
    assert!(WadRework::is_empty(&[]));
    assert!(Library::is_empty(&[0, 0, 0]));
    assert!(!WadRework::is_empty(&[0, 1, 0]));
    assert!(!Library::is_empty(&[9]));
}

#[test]
fn short_buffer_is_truncated() {
    assert_eq!(Library::new(b"KIW").err(), Some(ParseError::TruncatedRecord));
    assert_eq!(Library::new(b"").err(), Some(ParseError::TruncatedRecord));
    assert_eq!(Library::new(b"KIWAD\x02\0\0\0\0\0\0\0").err(), Some(ParseError::TruncatedRecord));
}
