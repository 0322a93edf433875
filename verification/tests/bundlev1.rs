use bundle_builder::bundlev1::{content_path, parse_filelist_line, BundleV1, HEADER_SIZE};
use bundle_builder::error::BuildError;
use bundle_builder::index::{parse_index_line, read_index};
use flate2::read::GzDecoder;
use std::io::Read;

const DIGEST_TEXT: &str = "5891b5b522d5df086d0ff0b110fbd9d21bb4fc7163af34d08286a2e846f6be03\n";

fn gunzip(bytes: &[u8]) -> Vec<u8> {
    let mut out = Vec::new();
    GzDecoder::new(bytes).read_to_end(&mut out).unwrap();
    out
}

fn digest_bytes() -> Vec<u8> {
    bundle_builder::digest::hex_decode(DIGEST_TEXT.trim()).unwrap()
}

#[test]
fn header_size_is_66() {
    assert_eq!(HEADER_SIZE, 66);
}

#[test]
fn new_packer_starts_after_the_header() {
    let b = BundleV1::new();
    assert_eq!(b.position(), 66);
    assert_eq!(b.filelist().len(), 0);
    assert_eq!(b.index_start(), 0);
    assert_eq!(b.index_gzip_len(), 0);
    assert_eq!(b.index_real_len(), 0);
}

#[test]
fn add_slice_places_files_one_after_the_other() {
    let mut b = BundleV1::new();
    assert_eq!(b.add_slice("/a", "nohash", 10, 30), Ok(()));
    assert_eq!(b.add_slice("/b", "abc", 0, 20), Ok(()));
    assert_eq!(b.add_slice("/c", "def", 5, 25), Ok(()));
    let f = b.filelist();
    assert_eq!((f[0].start, f[0].gzip_len, f[0].real_len), (66, 30, 10));
    assert_eq!((f[1].start, f[1].gzip_len, f[1].real_len), (96, 20, 0));
    assert_eq!((f[2].start, f[2].gzip_len, f[2].real_len), (116, 25, 5));
    assert_eq!(f[0].path, "/a");
    assert_eq!(f[2].hash, "def");
    assert_eq!(b.position(), 141);
}

#[test]
fn add_slice_size_overflow() {
    let mut b = BundleV1::new();
    let max = u32::MAX as u64;
    assert_eq!(b.add_slice("/a", "h", max + 1, 1), Err(BuildError::SizeOverflow));
    assert_eq!(b.add_slice("/a", "h", 1, max + 1), Err(BuildError::SizeOverflow));
    assert_eq!(b.add_slice("/a", "h", u64::MAX, u64::MAX), Err(BuildError::SizeOverflow));
    assert_eq!(b.filelist().len(), 0);
    assert_eq!(b.position(), 66);
    assert_eq!(b.add_slice("/a", "h", max, max), Ok(()));
    assert_eq!(b.position(), 66 + max);
    assert_eq!(b.filelist()[0].real_len, u32::MAX);
    assert_eq!(b.filelist()[0].gzip_len, u32::MAX);
}

#[test]
fn add_slice_refuses_what_is_no_word() {
    let mut b = BundleV1::new();
    assert_eq!(b.add_slice("", "h", 1, 1), Err(BuildError::MalformedFilelist));
    assert_eq!(b.add_slice("/a b", "h", 1, 1), Err(BuildError::MalformedFilelist));
    assert_eq!(b.add_slice("/a", "", 1, 1), Err(BuildError::MalformedFilelist));
    assert_eq!(b.add_slice("/a", "x\ny", 1, 1), Err(BuildError::MalformedFilelist));
    assert_eq!(b.add_slice("/a", "h", u64::MAX, 1), Err(BuildError::SizeOverflow));
    assert_eq!(b.add_slice(" ", "h", u64::MAX, 1), Err(BuildError::SizeOverflow));
    assert_eq!(b.add_slice("", "", 1, u64::MAX), Err(BuildError::SizeOverflow));
    assert_eq!(b.position(), 66);
}

#[test]
fn add_file_gives_a_gzip_stream_of_the_content() {
    let mut b = BundleV1::new();
    let content = b"hello hello hello hello hello hello\n".to_vec();
    let blob = b.add_file("/texlive/x", "nohash", &content).unwrap();
    assert_ne!(blob, content);
    assert_eq!(&blob[..4], &[0x1f, 0x8b, 8, 0]);
    assert_eq!(gunzip(&blob), content);
    let f = &b.filelist()[0];
    assert_eq!(f.start, 66);
    assert_eq!(f.real_len as usize, content.len());
    assert_eq!(f.gzip_len as usize, blob.len());
    assert_eq!(b.position(), 66 + blob.len() as u64);
    let again = BundleV1::new().add_file("/other", "h", &content).unwrap();
    assert_eq!(again, blob);
}

#[test]
fn add_file_of_nothing() {
    let mut b = BundleV1::new();
    let blob = b.add_file("/e", "nohash", b"").unwrap();
    assert!(!blob.is_empty());
    assert_eq!(gunzip(&blob), b"");
    assert_eq!(b.filelist()[0].real_len, 0);
}

#[test]
fn index_body_lists_search_and_files() {
    let mut b = BundleV1::new();
    b.add_slice("/FILELIST", "nohash", 100, 50).unwrap();
    b.add_slice("/tl/a.tex", "abcd", 7, 27).unwrap();
    assert_eq!(
        b.index_body("/tl//\n/tl/tex\n"),
        "[DEFAULTSEARCH]\nMAIN\n[SEARCH:MAIN]\n/tl//\n/tl/tex\n[FILELIST]\n66 50 100 /FILELIST nohash\n116 27 7 /tl/a.tex abcd\n"
    );
    assert_eq!(
        BundleV1::new().index_body(""),
        "[DEFAULTSEARCH]\nMAIN\n[SEARCH:MAIN]\n[FILELIST]\n"
    );
    assert_eq!(
        BundleV1::new().index_body("a\r\nb"),
        "[DEFAULTSEARCH]\nMAIN\n[SEARCH:MAIN]\na\nb\n[FILELIST]\n"
    );
}

#[test]
fn write_index_records_where_the_index_lies() {
    let mut b = BundleV1::new();
    b.add_slice("/a", "h", 10, 34).unwrap();
    let text = b.index_body("/tl//\n");
    let blob = b.write_index("/tl//\n").unwrap();
    assert_eq!(gunzip(&blob), text.as_bytes());
    assert_eq!(b.index_start(), 100);
    assert_eq!(b.index_gzip_len() as usize, blob.len());
    assert_eq!(b.index_real_len() as usize, text.len());
    assert_eq!(b.position(), 100);
}

#[test]
fn set_index_records_the_lengths() {
    let mut b = BundleV1::new();
    b.add_slice("/a", "h", 1, 4).unwrap();
    b.set_index(1000, 300);
    assert_eq!((b.index_start(), b.index_real_len(), b.index_gzip_len()), (70, 1000, 300));
}

#[test]
fn write_header_lays_out_the_fields() {
    let mut b = BundleV1::new();
    b.add_slice("/a", "h", 1, 0x0102_0304 - 66).unwrap();
    b.set_index(0x0a0b_0c0d, 0x1122_3344);
    let h = b.write_header(DIGEST_TEXT).unwrap();
    assert_eq!(h.len(), 66);
    assert_eq!(&h[0..14], b"tectonicbundle");
    assert_eq!(&h[14..18], &[1, 0, 0, 0]);
    assert_eq!(&h[18..26], &0x0102_0304u64.to_le_bytes());
    assert_eq!(&h[26..30], &0x1122_3344u32.to_le_bytes());
    assert_eq!(&h[30..34], &0x0a0b_0c0du32.to_le_bytes());
    assert_eq!(&h[34..66], &digest_bytes()[..]);
}

#[test]
fn write_header_takes_white_space_round_the_digest() {
    let b = BundleV1::new();
    let bare = b.write_header(DIGEST_TEXT.trim()).unwrap();
    assert_eq!(b.write_header(DIGEST_TEXT).unwrap(), bare);
    assert_eq!(b.write_header(&format!("  {}\r\n", DIGEST_TEXT.trim())).unwrap(), bare);
    assert_eq!(b.write_header(&DIGEST_TEXT.to_uppercase()).unwrap(), bare);
}

#[test]
fn write_header_malformed_digest() {
    let b = BundleV1::new();
    assert_eq!(b.write_header(""), Err(BuildError::MalformedDigest));
    assert_eq!(b.write_header("abcd"), Err(BuildError::MalformedDigest));
    assert_eq!(b.write_header(&"0".repeat(63)), Err(BuildError::MalformedDigest));
    assert_eq!(b.write_header(&"0".repeat(66)), Err(BuildError::MalformedDigest));
    assert_eq!(b.write_header(&"g".repeat(64)), Err(BuildError::MalformedDigest));
    assert_eq!(
        b.write_header(&format!("{} x", DIGEST_TEXT.trim())),
        Err(BuildError::MalformedDigest)
    );
    assert!(b.write_header(&"0".repeat(64)).is_ok());
}

#[test]
fn add_files_packs_in_manifest_order() {
    let mut b = BundleV1::new();
    let contents = vec![b"first first first".to_vec(), b"second".to_vec()];
    let body = b.add_files("/a/one h1\n/a/two h2 and more\n", &contents).unwrap();
    let f = b.filelist();
    assert_eq!(f.len(), 2);
    assert_eq!((f[0].path.as_str(), f[0].hash.as_str()), ("/a/one", "h1"));
    assert_eq!((f[1].path.as_str(), f[1].hash.as_str()), ("/a/two", "h2"));
    assert_eq!(f[0].start, 66);
    assert_eq!(f[1].start, 66 + f[0].gzip_len as u64);
    assert_eq!(body.len() as u64, f[0].gzip_len as u64 + f[1].gzip_len as u64);
    assert_eq!(gunzip(&body[..f[0].gzip_len as usize]), contents[0]);
    assert_eq!(gunzip(&body[f[0].gzip_len as usize..]), contents[1]);
    assert_eq!(b.position(), 66 + body.len() as u64);
}

#[test]
fn add_files_malformed_line() {
    let one = vec![b"x".to_vec()];
    assert_eq!(
        BundleV1::new().add_files("/only-a-path\n", &one),
        Err(BuildError::MalformedFilelist)
    );
    assert_eq!(BundleV1::new().add_files("\n", &one), Err(BuildError::MalformedFilelist));
    assert_eq!(BundleV1::new().add_files("   \n", &one), Err(BuildError::MalformedFilelist));
    let two = vec![b"x".to_vec(), b"y".to_vec()];
    assert_eq!(
        BundleV1::new().add_files("/a h\n/b\n", &two),
        Err(BuildError::MalformedFilelist)
    );
}

#[test]
fn add_files_wants_one_content_for_each_line() {
    let one = vec![b"x".to_vec()];
    assert_eq!(BundleV1::new().add_files("/a h\n/b h\n", &one), Err(BuildError::InputIO));
    assert_eq!(BundleV1::new().add_files("", &one), Err(BuildError::InputIO));
    assert_eq!(BundleV1::new().add_files("/a\n/b\n", &one), Err(BuildError::InputIO));
    assert_eq!(BundleV1::new().add_files("", &vec![]), Ok(vec![]));
}

#[test]
fn make_builds_header_files_and_index() {
    let filelist = "/FILELIST nohash\n/tl/a.tex aaaa\n";
    let search = "/tl//\n";
    let contents = vec![filelist.as_bytes().to_vec(), b"\\relax\n".to_vec()];
    let bytes = BundleV1::make(filelist, search, DIGEST_TEXT, &contents).unwrap();

    assert_eq!(&bytes[0..14], b"tectonicbundle");
    assert_eq!(&bytes[14..18], &[1, 0, 0, 0]);
    let index_start = u64::from_le_bytes(bytes[18..26].try_into().unwrap()) as usize;
    let index_gzip_len = u32::from_le_bytes(bytes[26..30].try_into().unwrap()) as usize;
    let index_real_len = u32::from_le_bytes(bytes[30..34].try_into().unwrap()) as usize;
    assert_eq!(&bytes[34..66], &digest_bytes()[..]);
    assert_eq!(index_start + index_gzip_len, bytes.len());

    let index = gunzip(&bytes[index_start..]);
    assert_eq!(index.len(), index_real_len);
    let text = String::from_utf8(index).unwrap();
    let slices = read_index(&text).unwrap();
    assert_eq!(slices.len(), 2);
    assert_eq!(slices[0].start, 66);
    assert_eq!(slices[1].start, 66 + slices[0].gzip_len as u64);
    assert_eq!(slices[1].start as usize + slices[1].gzip_len as usize, index_start);
    for (s, content) in slices.iter().zip(contents.iter()) {
        let blob = &bytes[s.start as usize..s.start as usize + s.gzip_len as usize];
        assert_eq!(gunzip(blob), *content);
        assert_eq!(s.real_len as usize, content.len());
    }
    assert_eq!((slices[1].path.as_str(), slices[1].hash.as_str()), ("/tl/a.tex", "aaaa"));
    assert!(text.starts_with("[DEFAULTSEARCH]\nMAIN\n[SEARCH:MAIN]\n/tl//\n[FILELIST]\n66 "));
}

#[test]
fn make_fails_as_its_steps_do() {
    let one = vec![b"x".to_vec()];
    assert_eq!(BundleV1::make("/a\n", "", DIGEST_TEXT, &one), Err(BuildError::MalformedFilelist));
    assert_eq!(BundleV1::make("/a h\n", "", "nothex", &one), Err(BuildError::MalformedDigest));
    assert_eq!(BundleV1::make("/a h\n/b h\n", "", DIGEST_TEXT, &one), Err(BuildError::InputIO));
    assert_eq!(BundleV1::make("/a\n", "", "nothex", &one), Err(BuildError::MalformedFilelist));
}

#[test]
fn make_of_an_empty_manifest_has_its_index_right_after_the_header() {
    let bytes = BundleV1::make("", "", DIGEST_TEXT, &vec![]).unwrap();
    assert_eq!(u64::from_le_bytes(bytes[18..26].try_into().unwrap()), 66);
    assert_eq!(gunzip(&bytes[66..]), b"[DEFAULTSEARCH]\nMAIN\n[SEARCH:MAIN]\n[FILELIST]\n");
}

#[test]
fn parse_index_line_reads_five_words() {
    let s = parse_index_line("66 50 100 /FILELIST nohash").unwrap();
    assert_eq!((s.start, s.gzip_len, s.real_len), (66, 50, 100));
    assert_eq!((s.path.as_str(), s.hash.as_str()), ("/FILELIST", "nohash"));
    let s = parse_index_line("  18446744073709551615\t4294967295 0 /a b ").unwrap();
    assert_eq!((s.start, s.gzip_len, s.real_len), (u64::MAX, u32::MAX, 0));
    assert_eq!((s.path.as_str(), s.hash.as_str()), ("/a", "b"));
}

#[test]
fn parse_index_line_refuses_other_lines() {
    assert!(parse_index_line("").is_none());
    assert!(parse_index_line("66 50 100 /a").is_none());
    assert!(parse_index_line("66 50 100 /a h extra").is_none());
    assert!(parse_index_line("x 50 100 /a h").is_none());
    assert!(parse_index_line("66 -5 100 /a h").is_none());
    assert!(parse_index_line("66 50 4294967296 /a h").is_none());
    assert!(parse_index_line("66 4294967296 50 /a h").is_none());
    assert!(parse_index_line("18446744073709551616 1 1 /a h").is_none());
}

#[test]
fn read_index_gives_back_what_was_recorded() {
    let mut b = BundleV1::new();
    b.add_slice("/FILELIST", "nohash", 100, 50).unwrap();
    b.add_slice("/tl/a.tex", "abcd", 7, 27).unwrap();
    b.add_slice("/tl/b.tex", "ef01", u32::MAX as u64, u32::MAX as u64).unwrap();
    let text = b.index_body("/tl//\n/tl/{a,b}\n");
    let back = read_index(&text).unwrap();
    assert_eq!(back.len(), 3);
    for (x, y) in back.iter().zip(b.filelist().iter()) {
        assert_eq!((x.start, x.gzip_len, x.real_len), (y.start, y.gzip_len, y.real_len));
        assert_eq!((&x.path, &x.hash), (&y.path, &y.hash));
    }
}

#[test]
fn read_index_refuses_a_text_without_files_section() {
    assert!(read_index("").is_none());
    assert!(read_index("[DEFAULTSEARCH]\nMAIN\n").is_none());
    assert!(read_index("[FILELIST]\nnot a file line\n").is_none());
    assert_eq!(read_index("[FILELIST]\n").unwrap().len(), 0);
    assert_eq!(read_index("x\n[FILELIST]\n1 2 3 /a h\n").unwrap().len(), 1);
}

#[test]
fn parse_filelist_line_takes_the_first_two_words() {
    let e = parse_filelist_line("/tl/a.tex abcd").ok().unwrap();
    assert_eq!((e.path.as_str(), e.hash.as_str()), ("/tl/a.tex", "abcd"));
    let e = parse_filelist_line("  /FILELIST\tnohash  and more ").ok().unwrap();
    assert_eq!((e.path.as_str(), e.hash.as_str()), ("/FILELIST", "nohash"));
    assert_eq!(parse_filelist_line("").err(), Some(BuildError::MalformedFilelist));
    assert_eq!(parse_filelist_line("/only").err(), Some(BuildError::MalformedFilelist));
    assert_eq!(parse_filelist_line(" \t ").err(), Some(BuildError::MalformedFilelist));
}

#[test]
fn content_path_drops_the_leading_slash() {
    assert_eq!(content_path("/tl/a.tex"), "tl/a.tex");
    assert_eq!(content_path("/FILELIST"), "FILELIST");
    assert_eq!(content_path("tl/a"), "tl/a");
    assert_eq!(content_path("//a"), "/a");
    assert_eq!(content_path("/"), "");
    assert_eq!(content_path(""), "");
    assert_eq!(content_path("/é"), "é");
}

#[test]
fn read_index_takes_the_last_files_section() {
    let mut b = BundleV1::new();
    b.add_slice("/a", "h1", 3, 30).unwrap();
    b.add_slice("/b", "h2", 4, 40).unwrap();
    let text = b.index_body("/tl//\n[FILELIST]\n1 2 3 /not/a/file x\n");
    let back = read_index(&text).unwrap();
    assert_eq!(back.len(), 2);
    assert_eq!((back[0].start, back[0].path.as_str()), (66, "/a"));
    assert_eq!((back[1].start, back[1].path.as_str()), (96, "/b"));
    assert_eq!(read_index("[FILELIST]\n1 2 3 /a h\n[FILELIST]\n").unwrap().len(), 0);
}
