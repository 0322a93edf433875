use bundle_builder::bundlev1::BundleV1;
use bundle_builder::config::{
    BundleConfig, BundleInput, BundleSearchOrder, BundleSpec, InputKind, NamedInput,
};
use bundle_builder::digest::{sha256_hex, FileDigest, StreamDigest};
use bundle_builder::error::BuildError;
use bundle_builder::index::read_index;
use bundle_builder::patch::patch_body;
use bundle_builder::select::{check_digest, FileAction, FilePicker, Selection};
use std::cmp::Ordering;

const HELLO_HASH: &str = "5891b5b522d5df086d0ff0b110fbd9d21bb4fc7163af34d08286a2e846f6be03";

fn dir_input(name: &str) -> NamedInput {
    NamedInput {
        name: name.to_string(),
        input: BundleInput {
            kind: InputKind::Dir,
            location: format!("/data/{name}"),
            root: None,
            patch_dir: None,
            ignore: None,
            search_order: None,
        },
    }
}

fn bundle(inputs: Vec<NamedInput>, search_order: Vec<BundleSearchOrder>) -> BundleSpec {
    BundleSpec {
        bundle: BundleConfig {
            name: "test".to_string(),
            expected_hash: String::new(),
            ignore: None,
            search_order,
        },
        inputs,
    }
}

fn reference(name: &str) -> BundleSearchOrder {
    BundleSearchOrder::Input { input: name.to_string() }
}

/// Packs a finished selection, given the content of each file of the content
/// tree that is not one of the three that the selection writes.
fn pack(sel: &Selection, files: &[(&str, &[u8])]) -> Vec<u8> {
    let contents: Vec<Vec<u8>> = sel
        .filelist
        .lines()
        .map(|line| {
            let path = line.split_whitespace().next().unwrap();
            match path {
                "/FILELIST" => sel.filelist.as_bytes().to_vec(),
                "/SEARCH" => sel.search_text.as_bytes().to_vec(),
                "/SHA256SUM" => sel.sha256sum.as_bytes().to_vec(),
                other => files.iter().find(|f| f.0 == other).unwrap().1.to_vec(),
            }
        })
        .collect();
    BundleV1::make(&sel.filelist, &sel.search_text, &sel.sha256sum, &contents).unwrap()
}

#[test]
fn empty_bundle() {
    let picker = FilePicker::new(bundle(vec![], vec![]));
    assert_eq!(picker.len(), 0);
    let sel = picker.finish().ok().unwrap();
    assert_eq!(sel.search, Vec::<String>::new());
    assert_eq!(sel.search_text, "");
    assert_eq!(
        sel.filelist,
        format!("/FILELIST nohash\n/SEARCH {}\n/SHA256SUM nohash\n", sha256_hex(b""))
    );
    assert_eq!(sel.sha256sum, format!("{}\n", sha256_hex(sel.filelist.as_bytes())));

    let bytes = pack(&sel, &[]);
    assert_eq!(&bytes[0..14], b"tectonicbundle");
    assert_eq!(&bytes[14..18], &[0x01, 0x00, 0x00, 0x00]);
    let index_start = u64::from_le_bytes(bytes[18..26].try_into().unwrap());
    let index_gzip_len = u32::from_le_bytes(bytes[26..30].try_into().unwrap()) as u64;
    assert_eq!(index_start + index_gzip_len, bytes.len() as u64);
    assert_eq!(
        bundle_builder::digest::hex_encode(&bytes[34..66]),
        sel.sha256sum.trim()
    );
}

#[test]
fn single_file_no_patch() {
    let mut picker = FilePicker::new(bundle(vec![dir_input("texlive")], vec![reference("texlive")]));
    let mut run = picker.add_source("texlive").ok().unwrap();
    assert_eq!(run.source(), "texlive");
    match picker.add_file(&run, "foo/bar.txt") {
        FileAction::Copy { target, patch } => {
            assert_eq!(target, "texlive/foo/bar.txt");
            assert_eq!(patch, None);
        }
        _ => panic!("the file should be copied"),
    }
    assert!(picker.add_to_filelist(&mut run, "foo/bar.txt", &FileDigest::of(b"hello\n")));
    assert_eq!(run.added(), 1);
    picker.finish_source(run);
    assert_eq!(picker.len(), 1);
    assert_eq!(picker.stats.added("texlive"), Some(1));

    let sel = picker.finish().ok().unwrap();
    assert!(sel.filelist.contains(&format!("/texlive/foo/bar.txt {HELLO_HASH}\n")));
    assert_eq!(
        sel.filelist,
        format!(
            "/FILELIST nohash\n/SEARCH {}\n/SHA256SUM nohash\n/texlive/foo/bar.txt {HELLO_HASH}\n",
            sha256_hex(b"/texlive//\n")
        )
    );

    let bytes = pack(&sel, &[("/texlive/foo/bar.txt", b"hello\n")]);
    let index_start = u64::from_le_bytes(bytes[18..26].try_into().unwrap()) as usize;
    let mut index = String::new();
    std::io::Read::read_to_string(
        &mut flate2::read::GzDecoder::new(&bytes[index_start..]),
        &mut index,
    )
    .unwrap();
    let slices = read_index(&index).unwrap();
    assert_eq!(slices[0].start, 66);
    let last = slices.last().unwrap();
    assert_eq!(last.path, "/texlive/foo/bar.txt");
    assert_eq!(last.hash, HELLO_HASH);
    assert_eq!(last.real_len, 6);
    let mut content = Vec::new();
    std::io::Read::read_to_end(
        &mut flate2::read::GzDecoder::new(
            &bytes[last.start as usize..last.start as usize + last.gzip_len as usize],
        ),
        &mut content,
    )
    .unwrap();
    assert_eq!(content, b"hello\n");
    assert_eq!(sha256_hex(&content), last.hash);
}

#[test]
fn ignore_rule() {
    let mut input = dir_input("texlive");
    input.input.ignore = Some(vec![r"foo/.*\.txt".to_string()]);
    let mut picker = FilePicker::new(bundle(vec![input], vec![reference("texlive")]));
    let run = picker.add_source("texlive").ok().unwrap();
    assert!(matches!(picker.add_file(&run, "foo/bar.txt"), FileAction::Ignore));
    assert_eq!(picker.stats.ignored(), 1);
    assert_eq!(run.added(), 0);
    picker.finish_source(run);
    assert_eq!(picker.len(), 0);
    let sel = picker.finish().ok().unwrap();
    assert_eq!(sel.stats.ignored(), 1);
    assert_eq!(sel.stats.added("texlive"), Some(0));
    assert!(!sel.filelist.contains("foo/bar.txt"));
    assert_eq!(sel.filelist.lines().count(), 3);
}

#[test]
fn global_ignore_rule() {
    let mut spec = bundle(vec![dir_input("a"), dir_input("b")], vec![]);
    spec.bundle.ignore = Some(vec!["# docs".to_string(), r"/[ab]/doc/.*".to_string()]);
    let mut picker = FilePicker::new(spec);
    for source in ["a", "b"] {
        let mut run = picker.add_source(source).ok().unwrap();
        assert!(matches!(picker.add_file(&run, "doc/x"), FileAction::Ignore));
        assert!(matches!(picker.add_file(&run, "tex/x"), FileAction::Copy { .. }));
        assert!(picker.add_to_filelist(&mut run, "tex/x", &FileDigest::of(b"x")));
        picker.finish_source(run);
    }
    assert_eq!(picker.stats.ignored(), 2);
    assert_eq!(picker.len(), 2);
}

#[test]
fn patch_applied() {
    let mut input = dir_input("src");
    input.input.patch_dir = Some("patches".to_string());
    let mut picker = FilePicker::new(bundle(vec![input], vec![]));
    let mut run = picker.add_source("src").ok().unwrap();
    let diff = "/src/a/b.tex\n@@ -1,2 +1,2 @@\n A\n-B\n+C\n";
    let load = picker.load_diff(&mut run, "patches/b.diff", diff).ok().unwrap();
    assert_eq!((load.found, load.conflicts), (1, 0));
    assert_eq!(picker.stats.patch_found(), 1);
    assert_eq!(picker.stats.patch_applied(), 0);
    assert_eq!(picker.stats.compare_patch_found_applied(), Ordering::Greater);

    let mut on_disk = b"A\nB\n".to_vec();
    match picker.add_file(&run, "a/b.tex") {
        FileAction::Copy { target, patch } => {
            assert_eq!(target, "src/a/b.tex");
            assert_eq!(patch, Some("patches/b.diff".to_string()));
            assert_eq!(patch_body(diff), "@@ -1,2 +1,2 @@\n A\n-B\n+C\n");
            on_disk = b"A\nC\n".to_vec();
        }
        _ => panic!("the file should be copied"),
    }
    assert!(picker.add_to_filelist(&mut run, "a/b.tex", &FileDigest::of(&on_disk)));
    picker.finish_source(run);
    assert_eq!(picker.stats.patch_applied(), 1);
    assert_eq!(picker.stats.patch_found(), 1);
    assert_eq!(picker.stats.compare_patch_found_applied(), Ordering::Equal);
    let sel = picker.finish().ok().unwrap();
    assert!(sel.filelist.contains(&format!("/src/a/b.tex {}\n", sha256_hex(b"A\nC\n"))));
}

#[test]
fn brace_expansion_in_patch_target() {
    let mut picker = FilePicker::new(bundle(vec![dir_input("src")], vec![]));
    let mut run = picker.add_source("src").ok().unwrap();
    let load = picker.load_diff(&mut run, "p.diff", "/src/{x,y}/f\nbody\n").ok().unwrap();
    assert_eq!(load.found, 2);
    assert_eq!(picker.stats.patch_found(), 2);
    for rel in ["x/f", "y/f", "z/f"] {
        match picker.add_file(&run, rel) {
            FileAction::Copy { patch, .. } => {
                assert_eq!(patch.is_some(), rel != "z/f");
            }
            _ => panic!("the file should be copied"),
        }
        assert!(picker.add_to_filelist(&mut run, rel, &FileDigest::of(b"content")));
    }
    assert_eq!(run.added(), 3);
    picker.finish_source(run);
    assert_eq!(picker.stats.patch_applied(), 2);
    assert_eq!(picker.stats.compare_patch_found_applied(), Ordering::Equal);
}

#[test]
fn search_fallback() {
    let picker = FilePicker::new(bundle(vec![dir_input("tl")], vec![reference("tl")]));
    let sel = picker.finish().ok().unwrap();
    assert_eq!(sel.search, vec!["/tl//"]);
    assert_eq!(sel.search_text, "/tl//\n");
    assert_eq!(sel.search_text.matches("/tl//").count(), 1);
}

#[test]
fn a_taken_place_is_a_conflict() {
    let mut picker = FilePicker::new(bundle(vec![dir_input("s")], vec![]));
    let mut run = picker.add_source("s").ok().unwrap();
    assert!(matches!(picker.add_file(&run, "a"), FileAction::Copy { .. }));
    assert!(picker.add_to_filelist(&mut run, "a", &FileDigest::of(b"one")));
    assert!(matches!(picker.add_file(&run, "a"), FileAction::Conflict));
    assert_eq!(picker.stats.extra_conflict(), 1);
    assert!(!picker.add_to_filelist(&mut run, "a", &FileDigest::of(b"two")));
    assert_eq!(run.added(), 1);
    assert_eq!(picker.len(), 1);
    picker.finish_source(run);
    let sel = picker.finish().ok().unwrap();
    assert!(sel.filelist.contains(&format!("/s/a {}\n", sha256_hex(b"one"))));
    assert_eq!(sel.stats.extra_conflict(), 1);
}

#[test]
fn an_ignored_patch_target_is_not_applied() {
    let mut input = dir_input("s");
    input.input.ignore = Some(vec!["a".to_string()]);
    let mut picker = FilePicker::new(bundle(vec![input], vec![]));
    let mut run = picker.add_source("s").ok().unwrap();
    picker.load_diff(&mut run, "p.diff", "/s/a\n").ok().unwrap();
    assert!(matches!(picker.add_file(&run, "a"), FileAction::Ignore));
    picker.finish_source(run);
    assert_eq!(picker.stats.patch_found(), 1);
    assert_eq!(picker.stats.patch_applied(), 0);
    assert_eq!(picker.stats.compare_patch_found_applied(), Ordering::Greater);
}

#[test]
fn add_source_fails_for_unknown_input_and_bad_rule() {
    let mut bad = dir_input("bad");
    bad.input.ignore = Some(vec!["(".to_string()]);
    let picker = FilePicker::new(bundle(vec![dir_input("good"), bad], vec![]));
    assert!(picker.add_source("good").is_ok());
    assert_eq!(picker.add_source("missing").err(), Some(BuildError::SpecInvalid));
    assert_eq!(picker.add_source("bad").err(), Some(BuildError::IgnorePatternInvalid));
}

#[test]
fn load_diff_with_a_bad_target_fails() {
    let mut picker = FilePicker::new(bundle(vec![dir_input("s")], vec![]));
    let mut run = picker.add_source("s").ok().unwrap();
    assert_eq!(
        picker.load_diff(&mut run, "p.diff", "/s/{a\n").err(),
        Some(BuildError::PatternInvalid)
    );
    assert_eq!(picker.stats.patch_found(), 0);
}

#[test]
fn finish_fails_as_the_search_order_does() {
    let picker = FilePicker::new(bundle(vec![], vec![reference("nowhere")]));
    assert_eq!(picker.finish().err(), Some(BuildError::SpecInvalid));
    let picker =
        FilePicker::new(bundle(vec![], vec![BundleSearchOrder::Plain("/a/{b".to_string())]));
    assert_eq!(picker.finish().err(), Some(BuildError::PatternInvalid));
}

#[test]
fn the_manifest_does_not_depend_on_the_order_of_the_files() {
    let files: [(&str, &[u8]); 4] = [("b/x", b"1"), ("a/y", b"2"), ("a-b/z", b"3"), ("a", b"4")];
    let mut texts = Vec::new();
    for order in [[0, 1, 2, 3], [3, 2, 1, 0], [2, 0, 3, 1]] {
        let mut picker = FilePicker::new(bundle(vec![dir_input("s")], vec![reference("s")]));
        let mut run = picker.add_source("s").ok().unwrap();
        for i in order {
            assert!(picker.add_to_filelist(&mut run, files[i].0, &FileDigest::of(files[i].1)));
        }
        picker.finish_source(run);
        let sel = picker.finish().ok().unwrap();
        texts.push((sel.filelist, sel.sha256sum));
    }
    assert_eq!(texts[0], texts[1]);
    assert_eq!(texts[0], texts[2]);
    let paths: Vec<&str> =
        texts[0].0.lines().map(|l| l.split_whitespace().next().unwrap()).collect();
    assert_eq!(paths, ["/FILELIST", "/SEARCH", "/SHA256SUM", "/s/a", "/s/a-b/z", "/s/a/y", "/s/b/x"]);
}

#[test]
fn only_the_two_generated_files_have_no_digest() {
    let mut picker = FilePicker::new(bundle(vec![dir_input("s")], vec![]));
    let mut run = picker.add_source("s").ok().unwrap();
    picker.add_to_filelist(&mut run, "x", &FileDigest::of(b""));
    picker.finish_source(run);
    let sel = picker.finish().ok().unwrap();
    for line in sel.filelist.lines() {
        let mut words = line.split_whitespace();
        let path = words.next().unwrap();
        let hash = words.next().unwrap();
        assert_eq!(hash == "nohash", path == "/FILELIST" || path == "/SHA256SUM");
        if hash != "nohash" {
            assert_eq!(hash.len(), 64);
        }
    }
}

#[test]
fn check_digest_compares_the_trimmed_text() {
    assert_eq!(check_digest("abc\n", "abc"), Ok(()));
    assert_eq!(check_digest("  abc ", "abc"), Ok(()));
    assert_eq!(check_digest("abc\n", "abd"), Err(BuildError::DigestMismatch));
    assert_eq!(check_digest("abc\n", "abc\n"), Err(BuildError::DigestMismatch));
    assert_eq!(check_digest("abc", "ABC"), Err(BuildError::DigestMismatch));
}

#[test]
fn a_selection_says_whether_its_digest_is_the_expected_one() {
    let sel = FilePicker::new(bundle(vec![], vec![])).finish().ok().unwrap();
    let digest = sha256_hex(sel.filelist.as_bytes());
    assert_eq!(check_digest(&sel.sha256sum, &digest), Ok(()));
    assert_eq!(check_digest(&sel.sha256sum, ""), Err(BuildError::DigestMismatch));
}

#[test]
fn only_a_conflict_is_warned_of() {
    assert_eq!(FileAction::Conflict.warning(), Some(BuildError::ManifestCollision));
    assert_eq!(FileAction::Ignore.warning(), None);
    assert_eq!(FileAction::Copy { target: "s/a".to_string(), patch: None }.warning(), None);
}

#[test]
fn one_more_ignore_rule_never_makes_the_manifest_longer() {
    let files = ["a.txt", "b.tex", "doc/x", "doc/y.txt", "z"];
    let rules: [&[&str]; 4] = [&[], &[r".*\.txt"], &[r".*\.txt", "doc/.*"], &[r".*\.txt", "doc/.*", ".*"]];
    let mut sizes = Vec::new();
    for set in rules {
        let mut input = dir_input("s");
        input.input.ignore = Some(set.iter().map(|r| r.to_string()).collect());
        let mut picker = FilePicker::new(bundle(vec![input], vec![]));
        let mut run = picker.add_source("s").ok().unwrap();
        for f in files {
            if let FileAction::Copy { .. } = picker.add_file(&run, f) {
                assert!(picker.add_to_filelist(&mut run, f, &FileDigest::of(b"")));
            }
        }
        picker.finish_source(run);
        sizes.push(picker.len());
    }
    assert_eq!(sizes, [5, 3, 2, 0]);
}

#[test]
fn the_manifest_is_ordered_by_the_path_as_a_string() {
    let mut picker = FilePicker::new(bundle(vec![dir_input("src")], vec![]));
    let mut run = picker.add_source("src").ok().unwrap();
    assert!(picker.add_to_filelist(&mut run, "a/b", &FileDigest::of(b"1")));
    assert!(picker.add_to_filelist(&mut run, "a-b/c", &FileDigest::of(b"2")));
    picker.finish_source(run);
    let sel = picker.finish().ok().unwrap();
    let first = sel.filelist.find("/src/a-b/c ").unwrap();
    let second = sel.filelist.find("/src/a/b ").unwrap();
    assert!(first < second);
    let paths: Vec<&str> =
        sel.filelist.lines().map(|l| l.split_whitespace().next().unwrap()).collect();
    let mut sorted = paths.clone();
    sorted.sort();
    assert_eq!(paths, sorted);
}

#[test]
fn a_file_can_be_digested_piece_by_piece() {
    let mut picker = FilePicker::new(bundle(vec![dir_input("s")], vec![]));
    let mut run = picker.add_source("s").ok().unwrap();
    let mut stream = StreamDigest::new();
    stream.update(b"hel");
    stream.update(b"");
    stream.update(b"lo\n");
    assert!(picker.add_to_filelist(&mut run, "f", &stream.finish()));
    picker.finish_source(run);
    let sel = picker.finish().ok().unwrap();
    assert!(sel.filelist.contains(&format!("/s/f {HELLO_HASH}\n")));
}
