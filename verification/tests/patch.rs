use bundle_builder::error::BuildError;
use bundle_builder::patch::{is_diff_file, patch_body, patch_target, PatchRegistry};

#[test]
fn patch_file_splits_at_the_first_line_feed() {
    let text = "/src/a/b.tex\n--- a\n+++ b\n@@ -1 +1 @@\n-B\n+C\n";
    assert_eq!(patch_target(text), "/src/a/b.tex");
    assert_eq!(patch_body(text), "--- a\n+++ b\n@@ -1 +1 @@\n-B\n+C\n");
    assert_eq!(patch_target("only"), "only");
    assert_eq!(patch_body("only"), "");
    assert_eq!(patch_target("\nrest"), "");
    assert_eq!(patch_body("\nrest"), "rest");
    assert_eq!(patch_target("a\n"), "a");
    assert_eq!(patch_body("a\n"), "");
    assert_eq!(patch_target(""), "");
    assert_eq!(patch_body(""), "");
}

#[test]
fn diff_files_end_in_dot_diff() {
    assert!(is_diff_file("a.diff"));
    assert!(is_diff_file("patches/tex/x.sty.diff"));
    assert!(is_diff_file("dir.d/..diff"));
    assert!(!is_diff_file(".diff"));
    assert!(!is_diff_file("patches/.diff"));
    assert!(!is_diff_file("a.diff.orig"));
    assert!(!is_diff_file("a.dif"));
    assert!(!is_diff_file("adiff"));
    assert!(!is_diff_file("a.diff/b"));
    assert!(!is_diff_file("a.DIFF"));
    assert!(!is_diff_file(""));
    assert!(!is_diff_file("a."));
}

#[test]
fn diff_files_agree_with_std_extension() {
    for p in ["a.diff", "x/y.z.diff", ".diff", "x/.diff", "a.diffx", "a", "a.b/c", "..diff", "a.diff.gz"] {
        let want = std::path::Path::new(p).extension().map(|e| e == "diff").unwrap_or(false);
        assert_eq!(is_diff_file(p), want, "{p}");
    }
}

#[test]
fn registry_starts_empty() {
    let r = PatchRegistry::new();
    assert_eq!(r.len(), 0);
    assert_eq!(r.lookup("/src/a"), None);
}

#[test]
fn load_diff_registers_the_target() {
    let mut r = PatchRegistry::new();
    let load = r.load_diff("patches/b.diff", "/src/a/b.tex\n-B\n+C\n").ok().unwrap();
    assert_eq!((load.found, load.conflicts), (1, 0));
    assert_eq!(r.len(), 1);
    assert_eq!(r.lookup("/src/a/b.tex"), Some("patches/b.diff".to_string()));
    assert_eq!(r.lookup("src/a/b.tex"), None);
    assert_eq!(r.lookup("/src/a/b.tex\n"), None);
}

#[test]
fn load_diff_expands_braces() {
    let mut r = PatchRegistry::new();
    let load = r.load_diff("p.diff", "/src/{x,y}/f\ndiff").ok().unwrap();
    assert_eq!((load.found, load.conflicts), (2, 0));
    assert_eq!(r.len(), 2);
    assert_eq!(r.lookup("/src/x/f"), Some("p.diff".to_string()));
    assert_eq!(r.lookup("/src/y/f"), Some("p.diff".to_string()));
    assert_eq!(r.lookup("/src/{x,y}/f"), None);
}

#[test]
fn the_first_patch_for_a_target_stays() {
    let mut r = PatchRegistry::new();
    r.load_diff("first.diff", "/src/{x,y}/f\n").ok().unwrap();
    let load = r.load_diff("second.diff", "/src/{y,z,x}/f\n").ok().unwrap();
    assert_eq!((load.found, load.conflicts), (1, 2));
    assert_eq!(r.len(), 3);
    assert_eq!(r.lookup("/src/x/f"), Some("first.diff".to_string()));
    assert_eq!(r.lookup("/src/y/f"), Some("first.diff".to_string()));
    assert_eq!(r.lookup("/src/z/f"), Some("second.diff".to_string()));
    let load = r.load_diff("third.diff", "/src/{a,a}/f\n").ok().unwrap();
    assert_eq!((load.found, load.conflicts), (1, 1));
}

#[test]
fn a_conflict_is_warned_of() {
    let mut r = PatchRegistry::new();
    assert_eq!(r.load_diff("first.diff", "/src/x\n").ok().unwrap().warning(), None);
    assert_eq!(
        r.load_diff("second.diff", "/src/{x,y}\n").ok().unwrap().warning(),
        Some(BuildError::PatchConflict)
    );
}

#[test]
fn a_target_that_cannot_be_expanded_changes_nothing() {
    let mut r = PatchRegistry::new();
    r.load_diff("first.diff", "/src/x\n").ok().unwrap();
    assert_eq!(r.load_diff("bad.diff", "/src/{a,\nbody").err(), Some(BuildError::PatternInvalid));
    assert_eq!(r.load_diff("bad.diff", "/src/{a,,b}/{c}\n").err(), Some(BuildError::PatternInvalid));
    assert_eq!(r.len(), 1);
}
