use bundle_builder::digest::FileDigest;
use bundle_builder::input::{Input, RawEntry};

fn entry(path: &str, is_file: bool) -> RawEntry {
    RawEntry { path: path.to_string(), is_file }
}

#[test]
fn directory_input_gives_paths_from_its_root() {
    let input = Input::new_dir("/data/tl".to_string());
    assert_eq!(input.select_entry("/data/tl/foo/bar.txt", true), Some("foo/bar.txt".to_string()));
    assert_eq!(input.select_entry("/data/tl/foo", false), None);
    assert_eq!(input.select_entry("/data/tl", true), None);
    assert_eq!(input.select_entry("/data/other/x", true), None);
    assert_eq!(input.select_entry("/data/tlx/x", true), None);
}

#[test]
fn tarball_input_without_root_takes_every_file() {
    let input = Input::new_tarball("tl.tar".to_string(), None, &FileDigest::of(b"archive bytes"));
    assert_eq!(input.select_entry("a/b.tex", true), Some("a/b.tex".to_string()));
    assert_eq!(input.select_entry("a", false), None);
    assert_eq!(input.select_entry("/abs/x", true), None);
    assert_eq!(input.select_entry("", true), None);
}

#[test]
fn tarball_input_with_root_strips_it() {
    let input = Input::new_tarball("tl.tar".to_string(), Some("texlive/2023".to_string()), &FileDigest::of(b""));
    assert_eq!(input.select_entry("texlive/2023/tex/a.sty", true), Some("tex/a.sty".to_string()));
    assert_eq!(input.select_entry("texlive/2023//tex/./a.sty", true), Some("tex/a.sty".to_string()));
    assert_eq!(input.select_entry("texlive/2024/tex/a.sty", true), None);
    assert_eq!(input.select_entry("texlive/2023", true), None);
    assert_eq!(input.select_entry("texlive/2023x/a", true), None);
    assert_eq!(input.select_entry("texlive/2023/tex", false), None);
}

#[test]
fn tarball_input_knows_the_digest_of_the_archive() {
    match Input::new_tarball("tl.tar".to_string(), None, &FileDigest::of(b"hello\n")) {
        Input::Tarball(t) => assert_eq!(
            t.hash(),
            "5891b5b522d5df086d0ff0b110fbd9d21bb4fc7163af34d08286a2e846f6be03"
        ),
        Input::Directory(_) => panic!("a tarball was asked for"),
    }
}

#[test]
fn iter_files_gives_the_files_in_order() {
    let input = Input::new_tarball("x".to_string(), Some("r".to_string()), &FileDigest::of(b""));
    let listing = vec![
        entry("r", false),
        entry("r/a", true),
        entry("other/b", true),
        entry("r/d", false),
        entry("r/d/c", true),
        entry("r", true),
    ];
    let files = input.iter_files(&listing);
    let got: Vec<(usize, &str)> = files.iter().map(|f| (f.index, f.path.as_str())).collect();
    assert_eq!(got, [(1, "a"), (4, "d/c")]);
    assert_eq!(input.iter_files(&vec![]).len(), 0);
}
